//! Plans of runs and of sweeps: what a file says, what flags say over it, and the checks.
use crate::adapters::profile::AdapterProfile;
use crate::adapters::{opt_text, AdapterSpec, Venue, VenueView};
use crate::cli::args::{
    source_views, BacktestArgs, DataSourceArgs, OrchCommonArgs, ResolvedRun, RunSpec, RunView,
    SourceView,
};
use crate::cli::checks::{
    is_address, names_address, plan_flaw, sources_flaw, validate_resolved,
};
use crate::cli::resolve::{
    apply_exec_overrides_orch, apply_execution_flag_overrides, bad, copy_opt, fail, flag_sources,
    flags_applied, given, given_opt, law_no_flags_no_change, or_empty, param_of, params_over,
    read_params, sources_from_cli, text_or_empty, with_flags,
};
use crate::config::{BacktestConfig, ExecutionConfig};
use crate::error::{Error, ErrorKind};
use crate::number::Number;
use crate::optimize::{axis_of, axis_views, parse_param_axis, AxisView, Metric, ParamAxis};
use crate::strmap::{entry, law_put_then_find, StrMap};
use crate::text::{ascii_lower, concat2, joined, same_text, texts, trimmed};
use vstd::prelude::*;

verus! {

/// A run with what the flags say over what a file says. Where the flags describe sources, those
/// take the place of all that the file lists.
pub open spec fn with_args<N: Number>(
    args: BacktestArgs<N>,
    file: RunView<N>,
    params: Seq<(Seq<char>, N)>,
    sources: Option<Seq<SourceView>>,
    execution: ExecutionConfig<N>,
) -> RunView<N> {
    RunView {
        source: if sources is Some {
            "adapter"@
        } else {
            given(opt_text(args.source), file.source)
        },
        ndjson: given_opt(opt_text(args.from.ndjson), file.ndjson),
        clickhouse: given_opt(opt_text(args.from.clickhouse), file.clickhouse),
        ch_config: given_opt(opt_text(args.from.ch_config), file.ch_config),
        instrument: given_opt(opt_text(args.from.instrument), file.instrument),
        start: given_opt(opt_text(args.from.start), file.start),
        end: given_opt(opt_text(args.from.end), file.end),
        strategy: given(opt_text(args.strategy), file.strategy),
        strategy_params: params,
        starting_balance: given(args.starting_balance, file.starting_balance),
        tearsheet: given_opt(opt_text(args.tearsheet), file.tearsheet),
        out_dir: given_opt(opt_text(args.out_dir), file.out_dir),
        sources: given(sources, file.sources),
        execution,
    }
}

/// The settings of executions to start from: a preset in place of those of the file.
pub open spec fn preset_or<N>(
    preset: Option<Result<ExecutionConfig<N>, Error>>,
    file: ExecutionConfig<N>,
) -> Result<ExecutionConfig<N>, (ErrorKind, Seq<char>)> {
    match preset {
        None => Ok(file),
        Some(Ok(e)) => Ok(e),
        Some(Err(e)) => Err(e@),
    }
}

/// A result is what flags over a file come to.
pub open spec fn merges<N: Number>(
    args: BacktestArgs<N>,
    file: RunView<N>,
    profile: Option<Result<AdapterProfile, Error>>,
    preset: Option<Result<ExecutionConfig<N>, Error>>,
    r: Result<RunView<N>, (ErrorKind, Seq<char>)>,
) -> bool {
    match params_over(file.strategy_params, texts(args.strategy_param@)) {
        Err(e) => r == Err::<RunView<N>, (ErrorKind, Seq<char>)>(e),
        Ok(params) => match flag_sources(opt_text(args.source), args.from, profile) {
            Err(e) => r == Err::<RunView<N>, (ErrorKind, Seq<char>)>(e),
            Ok(sources) => match preset_or(preset, file.execution) {
                Err(e) => r == Err::<RunView<N>, (ErrorKind, Seq<char>)>(e),
                Ok(base) => r matches Ok(v) && v == with_args(
                    args,
                    file,
                    params,
                    sources,
                    v.execution,
                ) && flags_applied(base, args.execution, args.latency, v.execution),
            },
        },
    }
}

fn override_text(field: &mut Option<String>, flag: &Option<String>)
    ensures
        opt_text(*final(field)) == given_opt(opt_text(*flag), opt_text(*old(field))),
{
    if let Some(x) = flag {
        *field = Some(x.clone());
    }
}

fn override_fields<N: Number>(spec: &mut RunSpec<N>, args: &BacktestArgs<N>)
    ensures
        final(spec)@ == with_args(
            *args,
            old(spec)@,
            old(spec)@.strategy_params,
            None,
            old(spec)@.execution,
        ),
{
    if let Some(s) = &args.source {
        spec.source = s.clone();
    }
    override_text(&mut spec.ndjson, &args.from.ndjson);
    override_text(&mut spec.clickhouse, &args.from.clickhouse);
    override_text(&mut spec.ch_config, &args.from.ch_config);
    override_text(&mut spec.instrument, &args.from.instrument);
    override_text(&mut spec.start, &args.from.start);
    override_text(&mut spec.end, &args.from.end);
    if let Some(s) = &args.strategy {
        spec.strategy = s.clone();
    }
    if let Some(b) = args.starting_balance {
        spec.starting_balance = b;
    }
    override_text(&mut spec.tearsheet, &args.tearsheet);
    override_text(&mut spec.out_dir, &args.out_dir);
}

/// Whether a kind of source is `adapter`.
fn asks_for_adapter(source: &Option<String>) -> (r: bool)
    ensures
        r == (opt_text(*source) == Some("adapter"@)),
{
    match source {
        Some(s) => same_text(s.as_str(), "adapter"),
        None => false,
    }
}

/// Lays the flags over what a file says. Of `profile` and `preset`, what went wrong in reading
/// them is told only where they are used.
pub fn merge_run<N: Number>(
    args: &BacktestArgs<N>,
    file: RunSpec<N>,
    profile: &Option<Result<AdapterProfile, Error>>,
    preset: Option<Result<ExecutionConfig<N>, Error>>,
) -> (r: Result<RunSpec<N>, Error>)
    ensures
        merges(
            *args,
            file@,
            *profile,
            preset,
            match r {
                Ok(s) => Ok(s@),
                Err(e) => Err(e@),
            },
        ),
{
    let ghost file_view = file@;
    let ghost file_execution = file.execution;
    let mut spec = file;
    override_fields(&mut spec, args);
    if let Err(e) = read_params(&mut spec.strategy_params, &args.strategy_param) {
        return Err(e);
    }
    let is_adapter = asks_for_adapter(&args.source);
    proof {
        assert(flag_sources(opt_text(args.source), args.from, *profile) == flag_sources(
            if is_adapter {
                Some("adapter"@)
            } else {
                None
            },
            args.from,
            *profile,
        ));
    }
    match sources_from_cli(is_adapter, &args.from, profile) {
        Err(e) => {
            return Err(e);
        },
        Ok(Some(sources)) => {
            spec.sources = sources;
            spec.source = "adapter".to_owned();
        },
        Ok(None) => {},
    }
    match preset {
        Some(Ok(e)) => {
            spec.execution = e;
        },
        Some(Err(e)) => {
            return Err(e);
        },
        None => {},
    }
    apply_execution_flag_overrides(&mut spec.execution, &args.execution, &args.latency);
    Ok(spec)
}

/// Where a tearsheet goes that nobody gave a place.
pub const DEFAULT_TEARSHEET: &'static str = "../figures/tearsheet.html";

/// The plan of a run that passes the checks, or what is wrong with it.
pub open spec fn settles<N>(
    spec: RunView<N>,
    had_config: bool,
    emit_tearsheet_b64: bool,
    present: Seq<Seq<char>>,
    strategies: Seq<Seq<char>>,
    r: Result<ResolvedRun<N>, Error>,
) -> bool {
    match plan_flaw(spec, had_config, present, strategies) {
        Some(e) => r matches Err(x) && x@ == e,
        None => r matches Ok(run) && run.spec@ == spec && run.tearsheet@ == given(
            spec.tearsheet,
            DEFAULT_TEARSHEET@,
        ) && run.emit_tearsheet_b64 == emit_tearsheet_b64,
    }
}

/// Checks a run and fills in what is left open.
pub fn settle_run<N: Number>(
    spec: RunSpec<N>,
    had_config: bool,
    emit_tearsheet_b64: bool,
    present: &Vec<String>,
    strategies: &Vec<String>,
) -> (r: Result<ResolvedRun<N>, Error>)
    ensures
        settles(spec@, had_config, emit_tearsheet_b64, texts(present@), texts(strategies@), r),
{
    if let Err(e) = validate_resolved(&spec, had_config, present, strategies) {
        return Err(e);
    }
    let tearsheet = match &spec.tearsheet {
        Some(t) => t.clone(),
        None => DEFAULT_TEARSHEET.to_owned(),
    };
    Ok(ResolvedRun { spec, tearsheet, emit_tearsheet_b64 })
}

/// What the file of a run says; without a file, the standard settings.
pub open spec fn file_or_blank<N: Number>(file: Option<RunSpec<N>>) -> RunView<N> {
    match file {
        Some(f) => f@,
        None => RunView::blank(),
    }
}

/// The plan of a single run: standard settings, what the file says over them, what the flags say
/// over that, and the checks. Without a file, source and strategy have to be given.
pub fn resolve_run<N: Number>(
    args: &BacktestArgs<N>,
    file: Option<RunSpec<N>>,
    profile: &Option<Result<AdapterProfile, Error>>,
    preset: Option<Result<ExecutionConfig<N>, Error>>,
    present: &Vec<String>,
    strategies: &Vec<String>,
) -> (r: Result<ResolvedRun<N>, Error>)
    ensures
        exists|merged: Result<RunView<N>, (ErrorKind, Seq<char>)>| #[trigger]
            merges(*args, file_or_blank(file), *profile, preset, merged) && match merged {
                Err(e) => r matches Err(x) && x@ == e,
                Ok(v) => settles(
                    v,
                    file is Some,
                    args.emit_tearsheet_b64,
                    texts(present@),
                    texts(strategies@),
                    r,
                ),
            },
{
    let had_config = file.is_some();
    let spec = match file {
        Some(f) => f,
        None => RunSpec::blank(),
    };
    let ghost start = spec@;
    match merge_run(args, spec, profile, preset) {
        Err(e) => {
            proof {
                assert(merges(
                    *args,
                    start,
                    *profile,
                    preset,
                    Err::<RunView<N>, (ErrorKind, Seq<char>)>(e@),
                ));
            }
            Err(e)
        },
        Ok(merged) => {
            proof {
                assert(merges(
                    *args,
                    start,
                    *profile,
                    preset,
                    Ok::<RunView<N>, (ErrorKind, Seq<char>)>(merged@),
                ));
            }
            settle_run(merged, had_config, args.emit_tearsheet_b64, present, strategies)
        },
    }
}

/// The files that the checks of a run ask for.
pub open spec fn paths_asked<N>(spec: RunView<N>) -> Seq<Seq<char>> {
    if spec.sources.len() > 0 {
        source_paths(spec.sources)
    } else {
        match spec.ndjson {
            Some(p) => seq![p],
            None => Seq::empty(),
        }
    }
}

/// The files of some sources.
pub open spec fn source_paths(sources: Seq<SourceView>) -> Seq<Seq<char>>
    decreases sources.len(),
{
    if sources.len() == 0 {
        Seq::empty()
    } else if is_address(sources.last().path) {
        source_paths(sources.drop_last())
    } else {
        source_paths(sources.drop_last()).push(sources.last().path)
    }
}

/// The files that the checks of a run ask for.
pub fn local_paths<N: Number>(spec: &RunSpec<N>) -> (r: Vec<String>)
    ensures
        texts(r@) == paths_asked(spec@),
{
    let mut out: Vec<String> = Vec::new();
    proof {
        assert(texts(out@) =~= Seq::<Seq<char>>::empty());
    }
    let n: usize = spec.sources.len();
    if n == 0 {
        if let Some(p) = &spec.ndjson {
            out.push(p.clone());
            proof {
                assert(texts(out@) =~= seq![p@]);
            }
        }
        return out;
    }
    let ghost all = source_views(spec.sources@);
    let mut i: usize = 0;
    while i < n
        invariant
            i <= n,
            n == spec.sources@.len(),
            all == source_views(spec.sources@),
            texts(out@) == source_paths(all.take(i as int)),
        decreases n - i,
    {
        proof {
            assert(all.take(i + 1).drop_last() =~= all.take(i as int));
            assert(all.take(i + 1).last().path == spec.sources@[i as int].path@);
        }
        if !names_address(spec.sources[i].path.as_str()) {
            let ghost was = out@;
            out.push(spec.sources[i].path.clone());
            proof {
                assert(texts(out@) =~= texts(was).push(spec.sources@[i as int].path@));
            }
        }
        i += 1;
    }
    proof {
        assert(all.take(n as int) =~= all);
    }
    out
}

/// No flag is given that says anything of the run.
pub open spec fn no_flags<N: Number>(args: BacktestArgs<N>) -> bool {
    &&& args.source is None
    &&& args.from.adapter is None
    &&& args.from.venue is None
    &&& args.from.adapter_path is None
    &&& args.from.ndjson is None
    &&& args.from.clickhouse is None
    &&& args.from.ch_config is None
    &&& args.from.instrument is None
    &&& args.from.start is None
    &&& args.from.end is None
    &&& args.from.extra_source@.len() == 0
    &&& args.strategy is None
    &&& args.strategy_param@.len() == 0
    &&& args.starting_balance is None
    &&& args.tearsheet is None
    &&& args.out_dir is None
    &&& args.execution.is_blank()
    &&& args.latency.dist is None
    &&& args.latency.seed is None
}

/// Without flags a run is what its file says.
pub proof fn law_no_flags_no_change_to_run<N: Number>(
    args: BacktestArgs<N>,
    file: RunView<N>,
    r: Result<RunView<N>, (ErrorKind, Seq<char>)>,
)
    requires
        no_flags(args),
        merges(args, file, None, None, r),
    ensures
        r == Ok::<RunView<N>, (ErrorKind, Seq<char>)>(file),
{
    assert(texts(args.strategy_param@) =~= Seq::<Seq<char>>::empty());
    law_no_flags_no_change(file.execution, args.execution);
    assert(r->Ok_0 =~= file);
}

/// What a flag says of a run stands, whatever the file says; and what no flag speaks of stays as
/// the file says.
pub proof fn law_flags_win_over_file<N: Number>(
    args: BacktestArgs<N>,
    file: RunView<N>,
    profile: Option<Result<AdapterProfile, Error>>,
    preset: Option<Result<ExecutionConfig<N>, Error>>,
    run: RunView<N>,
)
    requires
        merges(args, file, profile, preset, Ok(run)),
    ensures
        args.strategy matches Some(s) ==> run.strategy == s@,
        args.strategy is None ==> run.strategy == file.strategy,
        args.starting_balance matches Some(b) ==> run.starting_balance == b,
        args.starting_balance is None ==> run.starting_balance == file.starting_balance,
        args.from.instrument matches Some(i) ==> run.instrument == Some(i@),
        args.from.instrument is None ==> run.instrument == file.instrument,
        args.from.start matches Some(d) ==> run.start == Some(d@),
        args.from.start is None ==> run.start == file.start,
        args.from.end matches Some(d) ==> run.end == Some(d@),
        args.from.end is None ==> run.end == file.end,
        args.execution.no_fees ==> !run.execution.include_fees,
        args.execution.latency_ns matches Some(n) ==> run.execution.latency.order_latency_ns == n,
        args.execution.max_order_qty matches Some(q) ==> run.execution.risk.max_order_qty == Some(q),
{
}

/// A parameter that a flag sets has the value of the last flag that sets it.
pub proof fn law_last_param_wins<N: Number>(
    params: Seq<(Seq<char>, N)>,
    raws: Seq<Seq<char>>,
    k: Seq<char>,
    v: N,
)
    requires
        raws.len() > 0,
        param_of::<N>(raws.last()) == Ok::<(Seq<char>, N), (ErrorKind, Seq<char>)>((k, v)),
        params_over(params, raws) is Ok,
    ensures
        entry(params_over(params, raws)->Ok_0, k) == Some(v),
{
    law_put_then_find(params_over(params, raws.drop_last())->Ok_0, k, v, k);
}

/// The checks of a run depend on no other files than those that it asks for.
pub proof fn law_checks_ask_for_these_files<N>(
    spec: RunView<N>,
    had_config: bool,
    here: Seq<Seq<char>>,
    there: Seq<Seq<char>>,
    strategies: Seq<Seq<char>>,
)
    requires
        forall|p: Seq<char>|
            paths_asked(spec).contains(p) ==> here.contains(p) == #[trigger] there.contains(p),
    ensures
        plan_flaw(spec, had_config, here, strategies) == plan_flaw(
            spec,
            had_config,
            there,
            strategies,
        ),
{
    if spec.sources.len() > 0 {
        lemma_sources_ask(spec.sources, here, there);
    } else if let Some(p) = spec.ndjson {
        assert(seq![p][0] == p);
        assert(paths_asked(spec).contains(p));
        assert(here.contains(p) == there.contains(p));
    }
}

proof fn lemma_sources_ask(
    sources: Seq<SourceView>,
    here: Seq<Seq<char>>,
    there: Seq<Seq<char>>,
)
    requires
        forall|p: Seq<char>|
            source_paths(sources).contains(p) ==> here.contains(p) == #[trigger] there.contains(p),
    ensures
        sources_flaw(sources, here) == sources_flaw(sources, there),
    decreases sources.len(),
{
    if sources.len() > 0 {
        let rest = sources.drop_last();
        let last = sources.last().path;
        assert forall|p: Seq<char>| source_paths(rest).contains(p) implies here.contains(p)
            == #[trigger] there.contains(p) by {
            let j = choose|j: int| 0 <= j < source_paths(rest).len() && source_paths(rest)[j] == p;
            assert(source_paths(sources)[j] == p);
        }
        lemma_sources_ask(rest, here, there);
        if !is_address(last) {
            let all = source_paths(sources);
            assert(all[all.len() - 1] == last);
            assert(all.contains(last));
            assert(here.contains(last) == there.contains(last));
        }
    }
}

// ---- sweeps ---------------------------------------------------------------------------------

/// The plan of a sweep.
#[derive(Debug)]
pub struct OrchPlan<N> {
    pub run: ResolvedRun<N>,
    pub axes: Vec<ParamAxis<N>>,
    pub metric: Metric,
    pub threads: usize,
}

/// The axes that some texts give, or the first text that gives none.
pub open spec fn axes_of<N: Number>(raws: Seq<Seq<char>>) -> Result<
    Seq<AxisView<N>>,
    (ErrorKind, Seq<char>),
>
    decreases raws.len(),
{
    if raws.len() == 0 {
        Ok(Seq::empty())
    } else {
        match axes_of::<N>(raws.drop_last()) {
            Err(e) => Err(e),
            Ok(before) => match axis_of::<N>(raws.last()) {
                Err(m) => Err(bad(m)),
                Ok(a) => Ok(before.push(a)),
            },
        }
    }
}

proof fn lemma_axes_fail<N: Number>(raws: Seq<Seq<char>>, i: int)
    requires
        0 <= i <= raws.len(),
        axes_of::<N>(raws.take(i)) is Err,
    ensures
        axes_of::<N>(raws) == axes_of::<N>(raws.take(i)),
    decreases raws.len() - i,
{
    if i == raws.len() {
        assert(raws.take(i) =~= raws);
    } else {
        assert(raws.take(i + 1).drop_last() =~= raws.take(i));
        lemma_axes_fail::<N>(raws, i + 1);
    }
}

fn read_axes<N: Number>(raws: &Vec<String>) -> (r: Result<Vec<ParamAxis<N>>, Error>)
    ensures
        match r {
            Ok(v) => axes_of::<N>(texts(raws@)) == Ok::<Seq<AxisView<N>>, (ErrorKind, Seq<char>)>(
                axis_views(v@),
            ),
            Err(e) => axes_of::<N>(texts(raws@)) == Err::<
                Seq<AxisView<N>>,
                (ErrorKind, Seq<char>),
            >(e@),
        },
{
    let ghost all = texts(raws@);
    let mut out: Vec<ParamAxis<N>> = Vec::new();
    let n: usize = raws.len();
    let mut i: usize = 0;
    proof {
        assert(axis_views(out@) =~= Seq::<AxisView<N>>::empty());
    }
    while i < n
        invariant
            i <= n,
            n == raws@.len(),
            all == texts(raws@),
            axes_of::<N>(all.take(i as int)) == Ok::<Seq<AxisView<N>>, (ErrorKind, Seq<char>)>(
                axis_views(out@),
            ),
        decreases n - i,
    {
        proof {
            assert(all.take(i + 1).drop_last() =~= all.take(i as int));
            assert(all.take(i + 1).last() == raws@[i as int]@);
        }
        match parse_param_axis::<N>(raws[i].as_str()) {
            Ok(a) => {
                let ghost was = out@;
                out.push(a);
                proof {
                    assert(axis_views(out@) =~= axis_views(was).push(a@));
                }
            },
            Err(m) => {
                proof {
                    lemma_axes_fail::<N>(all, i + 1);
                }
                return Err(fail(m));
            },
        }
        i += 1;
    }
    proof {
        assert(all.take(n as int) =~= all);
    }
    Ok(out)
}

/// The run that a sweep repeats.
pub open spec fn sweep_run<N: Number>(
    common: OrchCommonArgs<N>,
    sources: Option<Seq<SourceView>>,
    execution: ExecutionConfig<N>,
) -> RunView<N> {
    RunView {
        source: if sources is Some {
            "adapter"@
        } else {
            common.source@
        },
        ndjson: opt_text(common.from.ndjson),
        clickhouse: opt_text(common.from.clickhouse),
        ch_config: opt_text(common.from.ch_config),
        instrument: opt_text(common.from.instrument),
        start: opt_text(common.from.start),
        end: opt_text(common.from.end),
        strategy: common.strategy@,
        strategy_params: Seq::empty(),
        starting_balance: common.starting_balance,
        tearsheet: None,
        out_dir: opt_text(common.out_dir),
        sources: given(sources, Seq::empty()),
        execution,
    }
}

/// How many threads a sweep uses: at least one.
pub open spec fn thread_count(asked: Option<usize>, available: usize) -> usize {
    let n = given(asked, available);
    if n == 0 {
        1
    } else {
        n
    }
}

/// A result is the plan of a sweep, or what is wrong with its arguments.
pub open spec fn plans_sweep<N: Number>(
    common: OrchCommonArgs<N>,
    profile: Option<Result<AdapterProfile, Error>>,
    present: Seq<Seq<char>>,
    strategies: Seq<Seq<char>>,
    available: usize,
    execution: ExecutionConfig<N>,
    r: Result<OrchPlan<N>, Error>,
) -> bool {
    match flag_sources(Some(common.source@), common.from, profile) {
        Err(e) => r matches Err(x) && x@ == e,
        Ok(sources) => {
            let run = sweep_run(common, sources, execution);
            match plan_flaw(run, false, present, strategies) {
                Some(e) => r matches Err(x) && x@ == e,
                None => match axes_of::<N>(texts(common.param@)) {
                    Err(e) => r matches Err(x) && x@ == e,
                    Ok(axes) => match Metric::named(ascii_lower(trimmed(common.metric@))) {
                        None => r matches Err(x) && x@ == bad(
                            "unknown --metric '"@ + ascii_lower(trimmed(common.metric@))
                                + "' \u{2014} supported: "@ + joined(Metric::titles(), ", "@),
                        ),
                        Some(metric) => r matches Ok(plan) && plan.run.spec@ == run
                            && plan.run.tearsheet@ == DEFAULT_TEARSHEET@
                            && !plan.run.emit_tearsheet_b64 && axis_views(plan.axes@) == axes
                            && plan.metric == metric && plan.threads == thread_count(
                            common.threads,
                            available,
                        ),
                    },
                },
            }
        },
    }
}

/// The plan of a sweep: its run is checked as a single one is, and its axes and its metric are
/// read.
pub fn resolve_orch<N: Number>(
    common: &OrchCommonArgs<N>,
    profile: &Option<Result<AdapterProfile, Error>>,
    present: &Vec<String>,
    strategies: &Vec<String>,
    available: usize,
) -> (r: Result<OrchPlan<N>, Error>)
    ensures
        plans_sweep(
            *common,
            *profile,
            texts(present@),
            texts(strategies@),
            available,
            with_flags(ExecutionConfig::standard(), common.execution),
            r,
        ),
{
    let mut execution: ExecutionConfig<N> = ExecutionConfig::default();
    apply_exec_overrides_orch(&mut execution, &common.execution);
    plan_sweep(common, profile, present, strategies, available, execution)
}

fn plan_sweep<N: Number>(
    common: &OrchCommonArgs<N>,
    profile: &Option<Result<AdapterProfile, Error>>,
    present: &Vec<String>,
    strategies: &Vec<String>,
    available: usize,
    execution: ExecutionConfig<N>,
) -> (r: Result<OrchPlan<N>, Error>)
    ensures
        plans_sweep(
            *common,
            *profile,
            texts(present@),
            texts(strategies@),
            available,
            execution,
            r,
        ),
{
    let is_adapter = same_text(common.source.as_str(), "adapter");
    proof {
        assert(flag_sources(Some(common.source@), common.from, *profile) == flag_sources(
            if is_adapter {
                Some("adapter"@)
            } else {
                None
            },
            common.from,
            *profile,
        ));
    }
    let found = match sources_from_cli(is_adapter, &common.from, profile) {
        Ok(s) => s,
        Err(e) => {
            return Err(e);
        },
    };
    let ghost sources = if found is Some {
        Some(source_views(found->0@))
    } else {
        None
    };
    let source = if found.is_some() {
        "adapter".to_owned()
    } else {
        common.source.clone()
    };
    let sources_list: Vec<AdapterSpec> = match found {
        Some(v) => v,
        None => Vec::new(),
    };
    proof {
        assert(source_views(sources_list@) =~= given(sources, Seq::empty()));
    }
    let spec = RunSpec {
        source,
        ndjson: copy_opt(&common.from.ndjson),
        clickhouse: copy_opt(&common.from.clickhouse),
        ch_config: copy_opt(&common.from.ch_config),
        instrument: copy_opt(&common.from.instrument),
        start: copy_opt(&common.from.start),
        end: copy_opt(&common.from.end),
        strategy: common.strategy.clone(),
        strategy_params: StrMap::new(),
        starting_balance: common.starting_balance,
        tearsheet: None,
        out_dir: copy_opt(&common.out_dir),
        sources: sources_list,
        execution,
    };
    proof {
        assert(spec@ =~= sweep_run(*common, sources, execution));
    }
    let run = match settle_run(spec, false, false, present, strategies) {
        Ok(run) => run,
        Err(e) => {
            return Err(e);
        },
    };
    let axes = match read_axes::<N>(&common.param) {
        Ok(v) => v,
        Err(e) => {
            return Err(e);
        },
    };
    let metric = match Metric::parse(common.metric.as_str()) {
        Ok(m) => m,
        Err(m) => {
            return Err(fail(m));
        },
    };
    let asked: usize = match common.threads {
        Some(n) => n,
        None => available,
    };
    let threads: usize = if asked == 0 {
        1
    } else {
        asked
    };
    Ok(OrchPlan { run, axes, metric, threads })
}

/// The settings of a run: the standard ones with its balance and its executions.
pub open spec fn run_config<N>(
    standard: BacktestConfig<N>,
    starting_balance: N,
    execution: ExecutionConfig<N>,
) -> BacktestConfig<N> {
    BacktestConfig { starting_balance, execution, ..standard }
}

/// The settings of a planned run. All runs of a sweep have them in common.
pub fn orch_base_cfg<N: Number>(run: &ResolvedRun<N>) -> (r: BacktestConfig<N>)
    ensures
        exists|standard: BacktestConfig<N>|
            standard.is_default() && r == #[trigger] run_config(
                standard,
                run.spec.starting_balance,
                run.spec.execution,
            ),
{
    let standard: BacktestConfig<N> = BacktestConfig::default();
    let ghost base = standard;
    let mut cfg = standard.with_starting_balance(run.spec.starting_balance);
    cfg.execution = run.spec.execution.copy();
    proof {
        assert(cfg == run_config(base, run.spec.starting_balance, run.spec.execution));
    }
    cfg
}

// ---- labels ---------------------------------------------------------------------------------

/// What a source is called.
pub open spec fn label_of(source: Seq<char>, ndjson: Seq<char>, clickhouse: Seq<char>) -> Seq<char> {
    if source == "ndjson"@ {
        "ndjson "@ + ndjson
    } else if source == "clickhouse"@ {
        "clickhouse "@ + clickhouse
    } else {
        source
    }
}

/// What a source is called.
pub fn source_label(args: &DataSourceArgs) -> (r: String)
    ensures
        r@ == label_of(args.source@, or_empty(args.from.ndjson), or_empty(args.from.clickhouse)),
{
    if same_text(args.source.as_str(), "ndjson") {
        concat2("ndjson ", text_or_empty(&args.from.ndjson).as_str())
    } else if same_text(args.source.as_str(), "clickhouse") {
        concat2("clickhouse ", text_or_empty(&args.from.clickhouse).as_str())
    } else {
        args.source.clone()
    }
}

/// What a source under validation is called. Of an adapter it says the venue and the file too.
pub open spec fn validated_label(
    args: DataSourceArgs,
    spec: Option<AdapterSpec>,
) -> Seq<char> {
    if args.source@ == "adapter"@ {
        match spec {
            Some(s) => "adapter "@ + s.adapter@ + " (venue "@ + s.venue_or(
                VenueView::Generic("GENERIC"@),
            ).tag_text() + ", "@ + s.path@ + ")"@,
            None => "adapter"@,
        }
    } else {
        label_of(args.source@, or_empty(args.from.ndjson), or_empty(args.from.clickhouse))
    }
}

/// What a source under validation is called.
pub fn validate_source_label(args: &DataSourceArgs, spec: &Option<AdapterSpec>) -> (r: String)
    ensures
        r@ == validated_label(*args, *spec),
{
    if same_text(args.source.as_str(), "adapter") {
        match spec {
            Some(s) => {
                let venue = s.resolved_venue(Venue::Generic("GENERIC".to_owned()));
                let mut out = "adapter ".to_owned();
                out.append(s.adapter.as_str());
                out.append(" (venue ");
                out.append(venue.tag().as_str());
                out.append(", ");
                out.append(s.path.as_str());
                out.append(")");
                out
            },
            None => "adapter".to_owned(),
        }
    } else {
        source_label(args)
    }
}

/// The flags with which a source under validation is run.
pub open spec fn run_hint(
    args: DataSourceArgs,
    spec: Option<AdapterSpec>,
    profile_path: Option<Seq<char>>,
) -> Seq<char> {
    if args.source@ == "ndjson"@ {
        "--source ndjson --ndjson "@ + or_empty(args.from.ndjson)
    } else if args.source@ == "clickhouse"@ {
        "--source clickhouse --clickhouse "@ + given(opt_text(args.from.clickhouse), "..."@)
    } else if args.source@ == "adapter"@ {
        let flags = "--source adapter --adapter "@ + (match spec {
            Some(s) => s.adapter@,
            None => "..."@,
        }) + " --adapter-path "@ + or_empty(args.from.adapter_path);
        match profile_path {
            Some(p) => flags + " --adapter-profile "@ + p,
            None => flags,
        }
    } else {
        Seq::empty()
    }
}

/// The flags with which a source under validation is run.
pub fn validate_backtest_hint(
    args: &DataSourceArgs,
    spec: &Option<AdapterSpec>,
    profile_path: &Option<String>,
) -> (r: String)
    ensures
        r@ == run_hint(*args, *spec, opt_text(*profile_path)),
{
    if same_text(args.source.as_str(), "ndjson") {
        concat2("--source ndjson --ndjson ", text_or_empty(&args.from.ndjson).as_str())
    } else if same_text(args.source.as_str(), "clickhouse") {
        match &args.from.clickhouse {
            Some(u) => concat2("--source clickhouse --clickhouse ", u.as_str()),
            None => concat2("--source clickhouse --clickhouse ", "..."),
        }
    } else if same_text(args.source.as_str(), "adapter") {
        let mut out = "--source adapter --adapter ".to_owned();
        match spec {
            Some(s) => {
                out.append(s.adapter.as_str());
            },
            None => {
                out.append("...");
            },
        }
        out.append(" --adapter-path ");
        out.append(text_or_empty(&args.from.adapter_path).as_str());
        if let Some(p) = profile_path {
            out.append(" --adapter-profile ");
            out.append(p.as_str());
        }
        out
    } else {
        let out = String::new();
        proof {
            assert(out@ =~= Seq::<char>::empty());
        }
        out
    }
}

} // verus!
