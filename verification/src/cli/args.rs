//! What the command line says, and the plan of a run.
use crate::adapters::{opt_text, AdapterSpec};
use crate::config::{ExecutionConfig, QueueModel};
use crate::number::Number;
use crate::adapters::profile::map_texts;
use crate::strmap::StrMap;
use vstd::prelude::*;

verus! {

/// How much is said on the way.
#[derive(Debug, Clone, Copy, PartialEq, Eq, Structural)]
pub enum Verbosity {
    Quiet,
    Normal,
    Verbose,
}

/// How much is said: to be quiet wins.
pub fn verbosity(quiet: bool, verbose: u8) -> (r: Verbosity)
    ensures
        r == if quiet {
            Verbosity::Quiet
        } else if verbose > 0 {
            Verbosity::Verbose
        } else {
            Verbosity::Normal
        },
{
    if quiet {
        Verbosity::Quiet
    } else if verbose > 0 {
        Verbosity::Verbose
    } else {
        Verbosity::Normal
    }
}

/// The kind of delays that is asked for.
#[derive(Debug, Clone, Copy, PartialEq, Eq, Structural)]
pub enum LatencyDistArg {
    Fixed,
    Uniform,
    Normal,
    Exponential,
    Empirical,
}

/// The flags that change how executions are modelled. What is not given stays as it is.
#[derive(Debug, Clone, PartialEq)]
pub struct ExecFlags<N> {
    pub no_fees: bool,
    pub rewards: bool,
    pub reward_per_period: Option<N>,
    pub reward_period_secs: Option<i64>,
    pub min_resting_size: Option<N>,
    pub max_spread_cents: Option<i32>,
    pub latency_ns: Option<i64>,
    pub cancel_latency_ns: Option<i64>,
    pub md_latency_ns: Option<i64>,
    pub jitter_ns: Option<i64>,
    pub slippage_ticks: Option<i32>,
    pub slippage_bps: Option<N>,
    pub queue_model: Option<QueueModel>,
    pub settlements: Option<String>,
    pub max_order_qty: Option<N>,
    pub max_position: Option<N>,
    pub max_gross: Option<N>,
    pub equity_floor: Option<N>,
    pub max_drawdown_pct: Option<N>,
}

/// The flags that choose how delays are drawn.
#[derive(Debug, Clone, PartialEq)]
pub struct LatencyFlags {
    pub dist: Option<LatencyDistArg>,
    pub min_ns: Option<i64>,
    pub max_ns: Option<i64>,
    pub std_ns: Option<i64>,
    pub mean_ns: Option<i64>,
    pub empirical: Option<String>,
    pub seed: Option<u64>,
}

/// The flags that choose a source of data.
#[derive(Debug, Clone, PartialEq)]
pub struct SourceFlags {
    pub adapter: Option<String>,
    pub venue: Option<String>,
    pub adapter_path: Option<String>,
    pub ndjson: Option<String>,
    pub clickhouse: Option<String>,
    pub ch_config: Option<String>,
    pub instrument: Option<String>,
    pub start: Option<String>,
    pub end: Option<String>,
    pub extra_source: Vec<String>,
}

/// The arguments of a single run.
#[derive(Debug, Clone, PartialEq)]
pub struct BacktestArgs<N> {
    pub source: Option<String>,
    pub from: SourceFlags,
    pub strategy: Option<String>,
    pub strategy_param: Vec<String>,
    pub starting_balance: Option<N>,
    pub tearsheet: Option<String>,
    pub emit_tearsheet_b64: bool,
    pub out_dir: Option<String>,
    pub execution: ExecFlags<N>,
    pub latency: LatencyFlags,
}

/// The arguments of a sweep.
#[derive(Debug, Clone, PartialEq)]
pub struct OrchCommonArgs<N> {
    pub source: String,
    pub from: SourceFlags,
    pub strategy: String,
    pub param: Vec<String>,
    pub metric: String,
    pub starting_balance: N,
    /// How many threads to use; as many as the machine offers where it is not said.
    pub threads: Option<usize>,
    pub out_dir: Option<String>,
    pub execution: ExecFlags<N>,
}

/// The arguments of the commands that look at a source of data.
#[derive(Debug, Clone, PartialEq)]
pub struct DataSourceArgs {
    pub source: String,
    pub from: SourceFlags,
}

/// A run as a file describes it, and as flags then change it.
#[derive(Debug)]
pub struct RunSpec<N> {
    pub source: String,
    pub ndjson: Option<String>,
    pub clickhouse: Option<String>,
    pub ch_config: Option<String>,
    pub instrument: Option<String>,
    pub start: Option<String>,
    pub end: Option<String>,
    pub strategy: String,
    pub strategy_params: StrMap<N>,
    pub starting_balance: N,
    pub tearsheet: Option<String>,
    pub out_dir: Option<String>,
    /// Sources that are merged. Where there are any, `source` does not matter.
    pub sources: Vec<AdapterSpec>,
    pub execution: ExecutionConfig<N>,
}

/// A run with nothing left open.
#[derive(Debug)]
pub struct ResolvedRun<N> {
    pub spec: RunSpec<N>,
    pub tearsheet: String,
    pub emit_tearsheet_b64: bool,
}

/// What a source says.
#[verifier::ext_equal]
pub struct SourceView {
    pub adapter: Seq<char>,
    pub venue: Seq<char>,
    pub path: Seq<char>,
    pub instrument: Option<Seq<char>>,
    pub start: Option<Seq<char>>,
    pub end: Option<Seq<char>>,
    pub mapping: Map<Seq<char>, Seq<char>>,
}

/// What a source says.
pub open spec fn source_view(s: AdapterSpec) -> SourceView {
    SourceView {
        adapter: s.adapter@,
        venue: s.venue@,
        path: s.path@,
        instrument: opt_text(s.instrument),
        start: opt_text(s.start),
        end: opt_text(s.end),
        mapping: map_texts(s.mapping@),
    }
}

/// What each of some sources says.
pub open spec fn source_views(v: Seq<AdapterSpec>) -> Seq<SourceView> {
    v.map_values(|s: AdapterSpec| source_view(s))
}

/// What a description of a run says.
#[verifier::ext_equal]
pub struct RunView<N> {
    pub source: Seq<char>,
    pub ndjson: Option<Seq<char>>,
    pub clickhouse: Option<Seq<char>>,
    pub ch_config: Option<Seq<char>>,
    pub instrument: Option<Seq<char>>,
    pub start: Option<Seq<char>>,
    pub end: Option<Seq<char>>,
    pub strategy: Seq<char>,
    pub strategy_params: Seq<(Seq<char>, N)>,
    pub starting_balance: N,
    pub tearsheet: Option<Seq<char>>,
    pub out_dir: Option<Seq<char>>,
    pub sources: Seq<SourceView>,
    pub execution: ExecutionConfig<N>,
}

impl<N> View for RunSpec<N> {
    type V = RunView<N>;

    open spec fn view(&self) -> RunView<N> {
        RunView {
            source: self.source@,
            ndjson: opt_text(self.ndjson),
            clickhouse: opt_text(self.clickhouse),
            ch_config: opt_text(self.ch_config),
            instrument: opt_text(self.instrument),
            start: opt_text(self.start),
            end: opt_text(self.end),
            strategy: self.strategy@,
            strategy_params: self.strategy_params.listing(),
            starting_balance: self.starting_balance,
            tearsheet: opt_text(self.tearsheet),
            out_dir: opt_text(self.out_dir),
            sources: source_views(self.sources@),
            execution: self.execution,
        }
    }
}

impl<N: Number> RunView<N> {
    /// A run of which nothing but the standard settings is known.
    pub open spec fn blank() -> RunView<N> {
        RunView {
            source: Seq::empty(),
            ndjson: None,
            clickhouse: None,
            ch_config: None,
            instrument: None,
            start: None,
            end: None,
            strategy: Seq::empty(),
            strategy_params: Seq::empty(),
            starting_balance: N::integer(1000),
            tearsheet: None,
            out_dir: None,
            sources: Seq::empty(),
            execution: ExecutionConfig::standard(),
        }
    }
}

impl<N: Number> RunSpec<N> {
    /// A run of which nothing but the standard settings is known.
    pub fn blank() -> (r: RunSpec<N>)
        ensures
            r@ == RunView::<N>::blank(),
    {
        let r = RunSpec {
            source: String::new(),
            ndjson: None,
            clickhouse: None,
            ch_config: None,
            instrument: None,
            start: None,
            end: None,
            strategy: String::new(),
            strategy_params: StrMap::new(),
            starting_balance: N::from_int(1000),
            tearsheet: None,
            out_dir: None,
            sources: Vec::new(),
            execution: ExecutionConfig::default(),
        };
        proof {
            assert(r@.source =~= Seq::<char>::empty());
            assert(r@.strategy =~= Seq::<char>::empty());
            assert(r@.sources =~= Seq::<SourceView>::empty());
        }
        r
    }
}

impl<N: Number> Default for RunSpec<N> {
    /// What a file that says nothing describes.
    fn default() -> (r: RunSpec<N>)
        ensures
            r@ == (RunView {
                source: "ndjson"@,
                strategy: "market_maker"@,
                ..RunView::<N>::blank()
            }),
    {
        let mut r = RunSpec::blank();
        r.source = "ndjson".to_owned();
        r.strategy = "market_maker".to_owned();
        r
    }
}

impl<N> ExecFlags<N> {
    /// No flag given.
    pub open spec fn is_blank(self) -> bool {
        &&& !self.no_fees
        &&& !self.rewards
        &&& self.reward_per_period is None
        &&& self.reward_period_secs is None
        &&& self.min_resting_size is None
        &&& self.max_spread_cents is None
        &&& self.latency_ns is None
        &&& self.cancel_latency_ns is None
        &&& self.md_latency_ns is None
        &&& self.jitter_ns is None
        &&& self.slippage_ticks is None
        &&& self.slippage_bps is None
        &&& self.queue_model is None
        &&& self.settlements is None
        &&& self.max_order_qty is None
        &&& self.max_position is None
        &&& self.max_gross is None
        &&& self.equity_floor is None
        &&& self.max_drawdown_pct is None
    }
}

} // verus!
