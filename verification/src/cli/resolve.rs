//! From arguments to a plan: files first, then flags over them, then the checks.
use crate::adapters::profile::{map_texts, AdapterProfile};
use crate::adapters::{opt_text, AdapterSpec};
use crate::cli::args::{
    source_view, source_views, ExecFlags, LatencyDistArg, LatencyFlags, SourceFlags, SourceView,
};
use crate::config::{
    ExecutionConfig, LatencyConfig, LatencyDist, QueueConfig, RewardsConfig, RiskConfig,
    SettlementConfig, SlippageConfig,
};
use crate::error::{Error, ErrorKind};
use crate::number::Number;
use crate::strmap::{put_entry, StrMap};
use crate::text::{
    concat3, same_text, split, split_at_char, split_once, split_once_at, texts, trim, trimmed,
};
use vstd::prelude::*;

verus! {

/// A value that is given, or else the one that stood there.
pub open spec fn given<T>(flag: Option<T>, was: T) -> T {
    match flag {
        Some(x) => x,
        None => was,
    }
}

/// An optional value that is given, or else the one that stood there.
pub open spec fn given_opt<T>(flag: Option<T>, was: Option<T>) -> Option<T> {
    match flag {
        Some(x) => Some(x),
        None => was,
    }
}

/// The settings of rewards with the flags over them.
pub open spec fn rewards_with<N: Number>(r: RewardsConfig<N>, f: ExecFlags<N>) -> RewardsConfig<N> {
    RewardsConfig {
        enabled: r.enabled || f.rewards || f.reward_per_period is Some,
        reward_per_period: given(f.reward_per_period, r.reward_per_period),
        period_secs: given(f.reward_period_secs, r.period_secs),
        min_resting_size: given(f.min_resting_size, r.min_resting_size),
        max_spread_cents: given(f.max_spread_cents, r.max_spread_cents),
        ..r
    }
}

/// The settings of delays with the flags over them.
pub open spec fn latency_with<N: Number>(l: LatencyConfig, f: ExecFlags<N>) -> LatencyConfig {
    LatencyConfig {
        enabled: l.enabled || (f.latency_ns matches Some(x) && x > 0) || f.cancel_latency_ns is Some
            || f.md_latency_ns is Some || f.jitter_ns is Some,
        order_latency_ns: given(f.latency_ns, l.order_latency_ns),
        cancel_latency_ns: given(f.cancel_latency_ns, l.cancel_latency_ns),
        market_data_latency_ns: given(f.md_latency_ns, l.market_data_latency_ns),
        jitter_ns: given(f.jitter_ns, l.jitter_ns),
        ..l
    }
}

/// The settings of slippage with the flags over them.
pub open spec fn slippage_with<N: Number>(
    s: SlippageConfig<N>,
    f: ExecFlags<N>,
) -> SlippageConfig<N> {
    SlippageConfig {
        enabled: s.enabled || (f.slippage_ticks matches Some(x) && x > 0) || f.slippage_bps is Some,
        taker_ticks: given(f.slippage_ticks, s.taker_ticks),
        taker_bps: given(f.slippage_bps, s.taker_bps),
        ..s
    }
}

/// The limits on risk with the flags over them.
pub open spec fn risk_with<N: Number>(r: RiskConfig<N>, f: ExecFlags<N>) -> RiskConfig<N> {
    RiskConfig {
        max_order_qty: given_opt(f.max_order_qty, r.max_order_qty),
        max_position_per_instrument: given_opt(f.max_position, r.max_position_per_instrument),
        max_gross_position: given_opt(f.max_gross, r.max_gross_position),
        equity_floor: given_opt(f.equity_floor, r.equity_floor),
        max_drawdown_pct: given_opt(f.max_drawdown_pct, r.max_drawdown_pct),
    }
}

/// The settings of executions with the flags over them.
pub open spec fn with_flags<N: Number>(
    e: ExecutionConfig<N>,
    f: ExecFlags<N>,
) -> ExecutionConfig<N> {
    ExecutionConfig {
        include_fees: e.include_fees && !f.no_fees,
        include_rewards: e.include_rewards || f.rewards,
        rewards: rewards_with(e.rewards, f),
        latency: latency_with(e.latency, f),
        slippage: slippage_with(e.slippage, f),
        queue: QueueConfig { model: given(f.queue_model, e.queue.model) },
        settlement: SettlementConfig { path: given_opt(f.settlements, e.settlement.path) },
        risk: risk_with(e.risk, f),
    }
}

fn override_rewards<N: Number>(r: &mut RewardsConfig<N>, f: &ExecFlags<N>)
    ensures
        *final(r) == rewards_with(*old(r), *f),
{
    if f.rewards {
        r.enabled = true;
    }
    if let Some(x) = f.reward_per_period {
        r.reward_per_period = x;
        r.enabled = true;
    }
    if let Some(x) = f.reward_period_secs {
        r.period_secs = x;
    }
    if let Some(x) = f.min_resting_size {
        r.min_resting_size = x;
    }
    if let Some(x) = f.max_spread_cents {
        r.max_spread_cents = x;
    }
}

fn override_latency<N: Number>(l: &mut LatencyConfig, f: &ExecFlags<N>)
    ensures
        *final(l) == latency_with(*old(l), *f),
{
    if let Some(x) = f.latency_ns {
        l.order_latency_ns = x;
        if x > 0 {
            l.enabled = true;
        }
    }
    if let Some(x) = f.cancel_latency_ns {
        l.cancel_latency_ns = x;
        l.enabled = true;
    }
    if let Some(x) = f.md_latency_ns {
        l.market_data_latency_ns = x;
        l.enabled = true;
    }
    if let Some(x) = f.jitter_ns {
        l.jitter_ns = x;
        l.enabled = true;
    }
}

fn override_slippage<N: Number>(s: &mut SlippageConfig<N>, f: &ExecFlags<N>)
    ensures
        *final(s) == slippage_with(*old(s), *f),
{
    if let Some(x) = f.slippage_ticks {
        s.taker_ticks = x;
        if x > 0 {
            s.enabled = true;
        }
    }
    if let Some(x) = f.slippage_bps {
        s.taker_bps = x;
        s.enabled = true;
    }
}

fn override_risk<N: Number>(r: &mut RiskConfig<N>, f: &ExecFlags<N>)
    ensures
        *final(r) == risk_with(*old(r), *f),
{
    if f.max_order_qty.is_some() {
        r.max_order_qty = f.max_order_qty;
    }
    if f.max_position.is_some() {
        r.max_position_per_instrument = f.max_position;
    }
    if f.max_gross.is_some() {
        r.max_gross_position = f.max_gross;
    }
    if f.equity_floor.is_some() {
        r.equity_floor = f.equity_floor;
    }
    if f.max_drawdown_pct.is_some() {
        r.max_drawdown_pct = f.max_drawdown_pct;
    }
}

/// Lays the flags over the settings of executions. What is not given stays as it is; a flag of a
/// model switches the model on.
pub fn apply_exec_overrides_orch<N: Number>(e: &mut ExecutionConfig<N>, f: &ExecFlags<N>)
    ensures
        *final(e) == with_flags(*old(e), *f),
{
    if f.no_fees {
        e.include_fees = false;
    }
    if f.rewards {
        e.include_rewards = true;
    }
    override_rewards(&mut e.rewards, f);
    override_latency(&mut e.latency, f);
    override_slippage(&mut e.slippage, f);
    if let Some(x) = f.queue_model {
        e.queue.model = x;
    }
    if let Some(p) = &f.settlements {
        e.settlement.path = Some(p.clone());
    }
    override_risk(&mut e.risk, f);
}

/// Without flags the settings stay as they are.
pub proof fn law_no_flags_no_change<N: Number>(e: ExecutionConfig<N>, f: ExecFlags<N>)
    requires
        f.is_blank(),
    ensures
        with_flags(e, f) == e,
{
}

/// To lay the same flags over settings twice is to do so once.
pub proof fn law_flags_apply_once<N: Number>(e: ExecutionConfig<N>, f: ExecFlags<N>)
    ensures
        with_flags(with_flags(e, f), f) == with_flags(e, f),
{
}

/// A number that is given; 0 where it is not.
pub open spec fn or_zero(x: Option<i64>) -> i64 {
    match x {
        Some(n) => n,
        None => 0,
    }
}

/// A distribution of delays is the one that the flags ask for. The mean of a normal one is the
/// plain delay; that of an exponential one is the plain delay where no mean is given.
pub open spec fn dist_matches(
    d: LatencyDist,
    kind: LatencyDistArg,
    l: LatencyFlags,
    latency_ns: Option<i64>,
) -> bool {
    match kind {
        LatencyDistArg::Fixed => d == LatencyDist::Fixed,
        LatencyDistArg::Uniform => d == (LatencyDist::Uniform {
            min_ns: or_zero(l.min_ns),
            max_ns: or_zero(l.max_ns),
        }),
        LatencyDistArg::Normal => d == (LatencyDist::Normal {
            mean_ns: or_zero(latency_ns),
            std_ns: or_zero(l.std_ns),
        }),
        LatencyDistArg::Exponential => d == (LatencyDist::Exponential {
            mean_ns: or_zero(given_opt(l.mean_ns, latency_ns)),
        }),
        LatencyDistArg::Empirical => d matches LatencyDist::Empirical { path } && path@
            == match l.empirical {
            Some(p) => p@,
            None => Seq::empty(),
        },
    }
}

fn zero_or(x: Option<i64>) -> (r: i64)
    ensures
        r == or_zero(x),
{
    match x {
        Some(n) => n,
        None => 0,
    }
}

/// The distribution of delays that the flags ask for.
pub fn build_latency_dist(
    kind: LatencyDistArg,
    l: &LatencyFlags,
    latency_ns: Option<i64>,
) -> (r: LatencyDist)
    ensures
        dist_matches(r, kind, *l, latency_ns),
{
    match kind {
        LatencyDistArg::Fixed => LatencyDist::Fixed,
        LatencyDistArg::Uniform => LatencyDist::Uniform {
            min_ns: zero_or(l.min_ns),
            max_ns: zero_or(l.max_ns),
        },
        LatencyDistArg::Normal => LatencyDist::Normal {
            mean_ns: zero_or(latency_ns),
            std_ns: zero_or(l.std_ns),
        },
        LatencyDistArg::Exponential => {
            let mean: i64 = match l.mean_ns {
                Some(n) => n,
                None => zero_or(latency_ns),
            };
            LatencyDist::Exponential { mean_ns: mean }
        },
        LatencyDistArg::Empirical => match &l.empirical {
            Some(p) => LatencyDist::Empirical { path: p.clone() },
            None => {
                let path = String::new();
                proof {
                    assert(path@ =~= Seq::<char>::empty());
                }
                LatencyDist::Empirical { path }
            },
        },
    }
}

/// Settings of executions are those that all flags of a single run lead to. To choose a
/// distribution of delays switches them on.
pub open spec fn flags_applied<N: Number>(
    was: ExecutionConfig<N>,
    flags: ExecFlags<N>,
    l: LatencyFlags,
    now: ExecutionConfig<N>,
) -> bool {
    let e = with_flags(was, flags);
    now == (ExecutionConfig {
        latency: LatencyConfig {
            enabled: e.latency.enabled || l.dist is Some,
            dist: now.latency.dist,
            seed: given(l.seed, e.latency.seed),
            ..e.latency
        },
        ..e
    }) && match l.dist {
        Some(kind) => dist_matches(now.latency.dist, kind, l, flags.latency_ns),
        None => now.latency.dist == e.latency.dist,
    }
}

/// Lays all flags of a single run over the settings of executions.
pub fn apply_execution_flag_overrides<N: Number>(
    e: &mut ExecutionConfig<N>,
    flags: &ExecFlags<N>,
    latency: &LatencyFlags,
)
    ensures
        flags_applied(*old(e), *flags, *latency, *final(e)),
{
    apply_exec_overrides_orch(e, flags);
    if let Some(seed) = latency.seed {
        e.latency.seed = seed;
    }
    if let Some(kind) = latency.dist {
        e.latency.dist = build_latency_dist(kind, latency, flags.latency_ns);
        e.latency.enabled = true;
    }
}

/// A failure to understand an argument.
pub open spec fn bad(message: Seq<char>) -> (ErrorKind, Seq<char>) {
    (ErrorKind::BadArgument, message)
}

pub(crate) fn fail(message: String) -> (r: Error)
    ensures
        r@ == bad(message@),
{
    Error::new(ErrorKind::BadArgument, message)
}

// ---- parameters -----------------------------------------------------------------------------

/// The parameter and the value that a text gives.
pub open spec fn param_of<N: Number>(raw: Seq<char>) -> Result<
    (Seq<char>, N),
    (ErrorKind, Seq<char>),
> {
    match split_once_at(raw, '=') {
        None => Err(bad("bad --strategy-param '"@ + raw + "' (expected key=value)"@)),
        Some((k, v)) => if trimmed(k).len() == 0 {
            Err(bad("bad --strategy-param '"@ + raw + "' (empty key)"@))
        } else {
            match N::written(trimmed(v)) {
                Some(x) => Ok((trimmed(k), x)),
                None => Err(
                    bad(
                        "bad --strategy-param '"@ + raw + "': value '"@ + trimmed(v)
                            + "' is not a number"@,
                    ),
                ),
            }
        },
    }
}

/// Reads a parameter and its value.
pub fn parse_strategy_param<N: Number>(raw: &str) -> (r: Result<(String, N), Error>)
    ensures
        match r {
            Ok((k, v)) => param_of::<N>(raw@) == Ok::<(Seq<char>, N), (ErrorKind, Seq<char>)>(
                (k@, v),
            ),
            Err(e) => param_of::<N>(raw@) == Err::<(Seq<char>, N), (ErrorKind, Seq<char>)>(e@),
        },
{
    let (k, v): (String, String) = match split_once(raw, '=') {
        Some(kv) => kv,
        None => {
            return Err(fail(concat3("bad --strategy-param '", raw, "' (expected key=value)")));
        },
    };
    let key = trim(k.as_str());
    if key.as_str().unicode_len() == 0 {
        return Err(fail(concat3("bad --strategy-param '", raw, "' (empty key)")));
    }
    let val = trim(v.as_str());
    match N::parse(val.as_str()) {
        Some(x) => Ok((key, x)),
        None => {
            let mut m = concat3("bad --strategy-param '", raw, "': value '");
            m.append(val.as_str());
            m.append("' is not a number");
            Err(fail(m))
        },
    }
}

/// Parameters with those that some texts give over them, or the first text that gives none.
pub open spec fn params_over<N: Number>(
    params: Seq<(Seq<char>, N)>,
    raws: Seq<Seq<char>>,
) -> Result<Seq<(Seq<char>, N)>, (ErrorKind, Seq<char>)>
    decreases raws.len(),
{
    if raws.len() == 0 {
        Ok(params)
    } else {
        match params_over(params, raws.drop_last()) {
            Err(e) => Err(e),
            Ok(before) => match param_of::<N>(raws.last()) {
                Ok((k, v)) => Ok(put_entry(before, k, v)),
                Err(e) => Err(e),
            },
        }
    }
}

proof fn lemma_params_fail<N: Number>(
    params: Seq<(Seq<char>, N)>,
    raws: Seq<Seq<char>>,
    i: int,
)
    requires
        0 <= i <= raws.len(),
        params_over(params, raws.take(i)) is Err,
    ensures
        params_over(params, raws) == params_over(params, raws.take(i)),
    decreases raws.len() - i,
{
    if i == raws.len() {
        assert(raws.take(i) =~= raws);
    } else {
        assert(raws.take(i + 1).drop_last() =~= raws.take(i));
        lemma_params_fail(params, raws, i + 1);
    }
}

pub(crate) fn read_params<N: Number>(params: &mut StrMap<N>, raws: &Vec<String>) -> (r: Result<(), Error>)
    ensures
        match r {
            Ok(_) => params_over(old(params).listing(), texts(raws@)) == Ok::<
                Seq<(Seq<char>, N)>,
                (ErrorKind, Seq<char>),
            >(final(params).listing()),
            Err(e) => params_over(old(params).listing(), texts(raws@)) == Err::<
                Seq<(Seq<char>, N)>,
                (ErrorKind, Seq<char>),
            >(e@),
        },
{
    let ghost start = params.listing();
    let ghost all = texts(raws@);
    let n: usize = raws.len();
    let mut i: usize = 0;
    while i < n
        invariant
            i <= n,
            n == raws@.len(),
            all == texts(raws@),
            start == old(params).listing(),
            params_over(start, all.take(i as int)) == Ok::<
                Seq<(Seq<char>, N)>,
                (ErrorKind, Seq<char>),
            >(params.listing()),
        decreases n - i,
    {
        proof {
            assert(all.take(i + 1).drop_last() =~= all.take(i as int));
            assert(all.take(i + 1).last() == raws@[i as int]@);
        }
        match parse_strategy_param::<N>(raws[i].as_str()) {
            Ok((k, v)) => {
                params.insert(k, v);
            },
            Err(e) => {
                proof {
                    lemma_params_fail(start, all, i + 1);
                }
                return Err(e);
            },
        }
        i += 1;
    }
    proof {
        assert(all.take(n as int) =~= all);
    }
    Ok(())
}

// ---- sources --------------------------------------------------------------------------------

/// A source of which nothing is known.
pub open spec fn blank_source() -> SourceView {
    SourceView {
        adapter: Seq::empty(),
        venue: Seq::empty(),
        path: Seq::empty(),
        instrument: None,
        start: None,
        end: None,
        mapping: Map::empty(),
    }
}

/// A source with one more thing known of it.
pub open spec fn source_with(s: SourceView, key: Seq<char>, val: Seq<char>) -> Option<SourceView> {
    if key == "adapter"@ {
        Some(SourceView { adapter: val, ..s })
    } else if key == "venue"@ {
        Some(SourceView { venue: val, ..s })
    } else if key == "path"@ {
        Some(SourceView { path: val, ..s })
    } else if key == "instrument"@ {
        Some(SourceView { instrument: Some(val), ..s })
    } else if key == "start"@ {
        Some(SourceView { start: Some(val), ..s })
    } else if key == "end"@ {
        Some(SourceView { end: Some(val), ..s })
    } else {
        None
    }
}

/// What one part of the text of a further source adds.
pub open spec fn source_part(s: SourceView, raw: Seq<char>) -> Result<
    SourceView,
    (ErrorKind, Seq<char>),
> {
    let part = trimmed(raw);
    if part.len() == 0 {
        Ok(s)
    } else {
        match split_once_at(part, '=') {
            None => Err(
                bad("bad --extra-source segment '"@ + part + "' (expected key=value)"@),
            ),
            Some((k, v)) => match source_with(s, trimmed(k), trimmed(v)) {
                Some(t) => Ok(t),
                None => Err(
                    bad(
                        "unknown --extra-source key '"@ + trimmed(k)
                            + "' (expected adapter|venue|path|instrument|start|end)"@,
                    ),
                ),
            },
        }
    }
}

/// What the parts of the text of a further source say.
pub open spec fn source_parts(parts: Seq<Seq<char>>) -> Result<SourceView, (ErrorKind, Seq<char>)>
    decreases parts.len(),
{
    if parts.len() == 0 {
        Ok(blank_source())
    } else {
        match source_parts(parts.drop_last()) {
            Err(e) => Err(e),
            Ok(s) => source_part(s, parts.last()),
        }
    }
}

/// The further source that a text describes.
pub open spec fn extra_source(raw: Seq<char>) -> Result<SourceView, (ErrorKind, Seq<char>)> {
    match source_parts(split_at_char(raw, ',')) {
        Err(e) => Err(e),
        Ok(s) => if s.adapter.len() == 0 {
            Err(bad("--extra-source missing adapter=<key>: "@ + raw))
        } else if s.path.len() == 0 {
            Err(bad("--extra-source missing path=<file>: "@ + raw))
        } else {
            Ok(s)
        },
    }
}

proof fn lemma_source_parts_fail(parts: Seq<Seq<char>>, i: int)
    requires
        0 <= i <= parts.len(),
        source_parts(parts.take(i)) is Err,
    ensures
        source_parts(parts) == source_parts(parts.take(i)),
    decreases parts.len() - i,
{
    if i == parts.len() {
        assert(parts.take(i) =~= parts);
    } else {
        assert(parts.take(i + 1).drop_last() =~= parts.take(i));
        lemma_source_parts_fail(parts, i + 1);
    }
}

fn add_part(s: &mut AdapterSpec, raw: &str) -> (r: Result<(), Error>)
    ensures
        match r {
            Ok(_) => source_part(source_view(*old(s)), raw@) == Ok::<
                SourceView,
                (ErrorKind, Seq<char>),
            >(source_view(*final(s))),
            Err(e) => source_part(source_view(*old(s)), raw@) == Err::<
                SourceView,
                (ErrorKind, Seq<char>),
            >(e@),
        },
{
    let part = trim(raw);
    if part.as_str().unicode_len() == 0 {
        return Ok(());
    }
    let (k, v): (String, String) = match split_once(part.as_str(), '=') {
        Some(kv) => kv,
        None => {
            return Err(
                fail(
                    concat3(
                        "bad --extra-source segment '",
                        part.as_str(),
                        "' (expected key=value)",
                    ),
                ),
            );
        },
    };
    let key = trim(k.as_str());
    let val = trim(v.as_str());
    if same_text(key.as_str(), "adapter") {
        s.adapter = val;
    } else if same_text(key.as_str(), "venue") {
        s.venue = val;
    } else if same_text(key.as_str(), "path") {
        s.path = val;
    } else if same_text(key.as_str(), "instrument") {
        s.instrument = Some(val);
    } else if same_text(key.as_str(), "start") {
        s.start = Some(val);
    } else if same_text(key.as_str(), "end") {
        s.end = Some(val);
    } else {
        return Err(
            fail(
                concat3(
                    "unknown --extra-source key '",
                    key.as_str(),
                    "' (expected adapter|venue|path|instrument|start|end)",
                ),
            ),
        );
    }
    Ok(())
}

/// Reads a further source: keys and values with commas between them. The adapter and the path
/// have to be there.
pub fn parse_extra_source(raw: &str) -> (r: Result<AdapterSpec, Error>)
    ensures
        match r {
            Ok(s) => extra_source(raw@) == Ok::<SourceView, (ErrorKind, Seq<char>)>(
                source_view(s),
            ),
            Err(e) => extra_source(raw@) == Err::<SourceView, (ErrorKind, Seq<char>)>(e@),
        },
{
    let parts = split(raw, ',');
    let ghost all = texts(parts@);
    let mut s = AdapterSpec::default();
    proof {
        assert(map_texts(s.mapping@) =~= Map::<Seq<char>, Seq<char>>::empty());
        assert(source_view(s) =~= blank_source());
    }
    let n: usize = parts.len();
    let mut i: usize = 0;
    while i < n
        invariant
            i <= n,
            n == parts@.len(),
            all == texts(parts@),
            all == split_at_char(raw@, ','),
            source_parts(all.take(i as int)) == Ok::<SourceView, (ErrorKind, Seq<char>)>(
                source_view(s),
            ),
        decreases n - i,
    {
        proof {
            assert(all.take(i + 1).drop_last() =~= all.take(i as int));
            assert(all.take(i + 1).last() == parts@[i as int]@);
        }
        match add_part(&mut s, parts[i].as_str()) {
            Ok(_) => {},
            Err(e) => {
                proof {
                    lemma_source_parts_fail(all, i + 1);
                }
                return Err(e);
            },
        }
        i += 1;
    }
    proof {
        assert(all.take(n as int) =~= all);
    }
    if s.adapter.as_str().unicode_len() == 0 {
        let mut m = "--extra-source missing adapter=<key>: ".to_owned();
        m.append(raw);
        return Err(fail(m));
    }
    if s.path.as_str().unicode_len() == 0 {
        let mut m = "--extra-source missing path=<file>: ".to_owned();
        m.append(raw);
        return Err(fail(m));
    }
    Ok(s)
}

/// The text that is given; nothing where none is.
pub open spec fn or_empty(s: Option<String>) -> Seq<char> {
    match s {
        Some(t) => t@,
        None => Seq::empty(),
    }
}

pub(crate) fn text_or_empty(s: &Option<String>) -> (r: String)
    ensures
        r@ == or_empty(*s),
{
    match s {
        Some(t) => t.clone(),
        None => {
            let e = String::new();
            proof {
                assert(e@ =~= Seq::<char>::empty());
            }
            e
        },
    }
}

pub(crate) fn copy_opt(s: &Option<String>) -> (r: Option<String>)
    ensures
        r == *s,
{
    match s {
        Some(t) => Some(t.clone()),
        None => None,
    }
}

/// The settings that some texts give, or the first text that gives none.
pub open spec fn mapping_of(raws: Seq<Seq<char>>) -> Result<
    Map<Seq<char>, Seq<char>>,
    (ErrorKind, Seq<char>),
>
    decreases raws.len(),
{
    if raws.len() == 0 {
        Ok(Map::empty())
    } else {
        match mapping_of(raws.drop_last()) {
            Err(e) => Err(e),
            Ok(m) => match split_once_at(raws.last(), '=') {
                None => Err(bad("bad --map '"@ + raws.last() + "' (expected key=value)"@)),
                Some((k, v)) => Ok(m.insert(trimmed(k), trimmed(v))),
            },
        }
    }
}

proof fn lemma_mapping_fails(raws: Seq<Seq<char>>, i: int)
    requires
        0 <= i <= raws.len(),
        mapping_of(raws.take(i)) is Err,
    ensures
        mapping_of(raws) == mapping_of(raws.take(i)),
    decreases raws.len() - i,
{
    if i == raws.len() {
        assert(raws.take(i) =~= raws);
    } else {
        assert(raws.take(i + 1).drop_last() =~= raws.take(i));
        lemma_mapping_fails(raws, i + 1);
    }
}

fn read_mapping(raws: &Vec<String>) -> (r: Result<StrMap<String>, Error>)
    ensures
        match r {
            Ok(m) => mapping_of(texts(raws@)) == Ok::<
                Map<Seq<char>, Seq<char>>,
                (ErrorKind, Seq<char>),
            >(map_texts(m@)),
            Err(e) => mapping_of(texts(raws@)) == Err::<
                Map<Seq<char>, Seq<char>>,
                (ErrorKind, Seq<char>),
            >(e@),
        },
{
    let ghost all = texts(raws@);
    let mut m: StrMap<String> = StrMap::new();
    proof {
        assert(map_texts(m@) =~= Map::<Seq<char>, Seq<char>>::empty());
    }
    let n: usize = raws.len();
    let mut i: usize = 0;
    while i < n
        invariant
            i <= n,
            n == raws@.len(),
            all == texts(raws@),
            mapping_of(all.take(i as int)) == Ok::<
                Map<Seq<char>, Seq<char>>,
                (ErrorKind, Seq<char>),
            >(map_texts(m@)),
        decreases n - i,
    {
        proof {
            assert(all.take(i + 1).drop_last() =~= all.take(i as int));
            assert(all.take(i + 1).last() == raws@[i as int]@);
        }
        match split_once(raws[i].as_str(), '=') {
            Some((k, v)) => {
                let key = trim(k.as_str());
                let val = trim(v.as_str());
                let ghost before = m@;
                let ghost (kv, vv) = (key@, val@);
                m.insert(key, val);
                proof {
                    assert(map_texts(m@) =~= map_texts(before).insert(kv, vv));
                }
            },
            None => {
                proof {
                    lemma_mapping_fails(all, i + 1);
                }
                return Err(
                    fail(concat3("bad --map '", raws[i].as_str(), "' (expected key=value)")),
                );
            },
        }
        i += 1;
    }
    proof {
        assert(all.take(n as int) =~= all);
    }
    Ok(m)
}

/// A source with what a profile says of it where it says nothing itself.
pub open spec fn filled_in(s: SourceView, p: Option<AdapterProfile>) -> SourceView {
    match p {
        None => s,
        Some(prof) => SourceView {
            adapter: if s.adapter.len() == 0 && prof.adapter is Some {
                prof.adapter->0@
            } else {
                s.adapter
            },
            venue: if s.venue.len() == 0 && prof.venue is Some {
                prof.venue->0@
            } else {
                s.venue
            },
            instrument: if s.instrument is None {
                opt_text(prof.instrument)
            } else {
                s.instrument
            },
            mapping: map_texts(prof.mapping@).union_prefer_right(s.mapping),
            ..s
        },
    }
}

/// The profile that was read, if one was asked for. What went wrong in reading it counts only
/// where the profile is used.
pub open spec fn profile_read(p: Option<Result<AdapterProfile, Error>>) -> Result<
    Option<AdapterProfile>,
    (ErrorKind, Seq<char>),
> {
    match p {
        None => Ok(None),
        Some(Ok(prof)) => Ok(Some(prof)),
        Some(Err(e)) => Err(e@),
    }
}

/// The source that the flags describe, with a profile behind them.
pub open spec fn cli_source(
    f: SourceFlags,
    map: Seq<Seq<char>>,
    profile: Option<Result<AdapterProfile, Error>>,
) -> Result<SourceView, (ErrorKind, Seq<char>)> {
    match (mapping_of(map), profile_read(profile)) {
        (Err(e), _) => Err(e),
        (_, Err(e)) => Err(e),
        (Ok(mapping), Ok(prof)) => {
            let s = filled_in(
                SourceView {
                    adapter: or_empty(f.adapter),
                    venue: or_empty(f.venue),
                    path: or_empty(f.adapter_path),
                    instrument: opt_text(f.instrument),
                    start: opt_text(f.start),
                    end: opt_text(f.end),
                    mapping,
                },
                prof,
            );
            if s.adapter.len() == 0 {
                Err(bad(NEED_ADAPTER@))
            } else if s.path.len() == 0 {
                Err(bad("--adapter-path <file> required for --source adapter"@))
            } else {
                Ok(s)
            }
        },
    }
}

/// What is said where no adapter is named.
pub const NEED_ADAPTER: &'static str = "--adapter <key> required for --source adapter (or set `adapter` in --adapter-profile); see `list-adapters`";

/// The source that the flags describe. They win over the profile, and `map` over its settings.
pub fn build_adapter_spec_from_cli(
    f: &SourceFlags,
    map: &Vec<String>,
    profile: &Option<Result<AdapterProfile, Error>>,
) -> (r: Result<AdapterSpec, Error>)
    ensures
        match r {
            Ok(s) => cli_source(*f, texts(map@), *profile) == Ok::<
                SourceView,
                (ErrorKind, Seq<char>),
            >(source_view(s)),
            Err(e) => cli_source(*f, texts(map@), *profile) == Err::<
                SourceView,
                (ErrorKind, Seq<char>),
            >(e@),
        },
{
    let mapping = match read_mapping(map) {
        Ok(m) => m,
        Err(e) => {
            return Err(e);
        },
    };
    let mut s = AdapterSpec {
        adapter: text_or_empty(&f.adapter),
        venue: text_or_empty(&f.venue),
        path: text_or_empty(&f.adapter_path),
        instrument: copy_opt(&f.instrument),
        start: copy_opt(&f.start),
        end: copy_opt(&f.end),
        mapping,
    };
    let ghost before = source_view(s);
    match profile {
        Some(Ok(p)) => {
            p.apply_to(&mut s);
            proof {
                assert(source_view(s) =~= filled_in(before, Some(*p)));
            }
        },
        Some(Err(e)) => {
            return Err(Error::new(e.kind, e.message.clone()));
        },
        None => {},
    }
    if s.adapter.as_str().unicode_len() == 0 {
        return Err(fail(NEED_ADAPTER.to_owned()));
    }
    if s.path.as_str().unicode_len() == 0 {
        return Err(fail("--adapter-path <file> required for --source adapter".to_owned()));
    }
    Ok(s)
}

/// What the flags say of a source stands, whatever a profile says.
pub proof fn law_flags_win_over_profile(s: SourceView, p: AdapterProfile, key: Seq<char>)
    ensures
        s.adapter.len() > 0 ==> filled_in(s, Some(p)).adapter == s.adapter,
        s.venue.len() > 0 ==> filled_in(s, Some(p)).venue == s.venue,
        s.instrument is Some ==> filled_in(s, Some(p)).instrument == s.instrument,
        filled_in(s, Some(p)).path == s.path,
        filled_in(s, Some(p)).start == s.start,
        filled_in(s, Some(p)).end == s.end,
        s.mapping.contains_key(key) ==> filled_in(s, Some(p)).mapping.contains_key(key)
            && filled_in(s, Some(p)).mapping[key] == s.mapping[key],
{
}

/// The further sources that some texts describe, or the first text that describes none.
pub open spec fn extra_sources(raws: Seq<Seq<char>>) -> Result<
    Seq<SourceView>,
    (ErrorKind, Seq<char>),
>
    decreases raws.len(),
{
    if raws.len() == 0 {
        Ok(Seq::empty())
    } else {
        match extra_sources(raws.drop_last()) {
            Err(e) => Err(e),
            Ok(before) => match extra_source(raws.last()) {
                Err(e) => Err(e),
                Ok(s) => Ok(before.push(s)),
            },
        }
    }
}

proof fn lemma_extra_sources_fail(raws: Seq<Seq<char>>, i: int)
    requires
        0 <= i <= raws.len(),
        extra_sources(raws.take(i)) is Err,
    ensures
        extra_sources(raws) == extra_sources(raws.take(i)),
    decreases raws.len() - i,
{
    if i == raws.len() {
        assert(raws.take(i) =~= raws);
    } else {
        assert(raws.take(i + 1).drop_last() =~= raws.take(i));
        lemma_extra_sources_fail(raws, i + 1);
    }
}

fn push_extra_sources(out: &mut Vec<AdapterSpec>, raws: &Vec<String>) -> (r: Result<(), Error>)
    ensures
        match r {
            Ok(_) => extra_sources(texts(raws@)) is Ok && source_views(final(out)@) == source_views(
                old(out)@,
            ) + extra_sources(texts(raws@))->Ok_0,
            Err(e) => extra_sources(texts(raws@)) == Err::<
                Seq<SourceView>,
                (ErrorKind, Seq<char>),
            >(e@),
        },
{
    let ghost first = source_views(out@);
    let ghost all = texts(raws@);
    let n: usize = raws.len();
    let mut i: usize = 0;
    proof {
        assert(first + Seq::<SourceView>::empty() =~= first);
    }
    while i < n
        invariant
            i <= n,
            n == raws@.len(),
            all == texts(raws@),
            first == source_views(old(out)@),
            extra_sources(all.take(i as int)) is Ok,
            source_views(out@) == first + extra_sources(all.take(i as int))->Ok_0,
        decreases n - i,
    {
        let ghost sofar = extra_sources(all.take(i as int))->Ok_0;
        proof {
            assert(all.take(i + 1).drop_last() =~= all.take(i as int));
            assert(all.take(i + 1).last() == raws@[i as int]@);
        }
        match parse_extra_source(raws[i].as_str()) {
            Ok(s) => {
                let ghost was = out@;
                out.push(s);
                proof {
                    assert(source_views(out@) =~= source_views(was).push(source_view(s)));
                    assert((first + sofar).push(source_view(s)) =~= first + sofar.push(
                        source_view(s),
                    ));
                }
            },
            Err(e) => {
                proof {
                    lemma_extra_sources_fail(all, i + 1);
                }
                return Err(e);
            },
        }
        i += 1;
    }
    proof {
        assert(all.take(n as int) =~= all);
    }
    Ok(())
}

/// What is said where a profile has nothing to apply to.
pub const STRAY_PROFILE: &'static str = "--adapter-profile only applies to the primary `--source adapter` source";

/// The sources that the flags of a run describe: the first one where the kind of source is
/// `adapter`, and the further ones. Nothing where the flags describe none.
pub open spec fn flag_sources(
    source: Option<Seq<char>>,
    f: SourceFlags,
    profile: Option<Result<AdapterProfile, Error>>,
) -> Result<Option<Seq<SourceView>>, (ErrorKind, Seq<char>)> {
    if source != Some("adapter"@) && f.extra_source@.len() == 0 {
        Ok(None)
    } else {
        let first = if source == Some("adapter"@) {
            match cli_source(f, Seq::empty(), profile) {
                Ok(s) => Ok(seq![s]),
                Err(e) => Err(e),
            }
        } else if profile is Some {
            Err(bad(STRAY_PROFILE@))
        } else {
            Ok(Seq::empty())
        };
        match first {
            Err(e) => Err(e),
            Ok(primary) => match extra_sources(texts(f.extra_source@)) {
                Err(e) => Err(e),
                Ok(more) => Ok(Some(primary + more)),
            },
        }
    }
}

/// The sources that the flags of a run describe.
pub fn sources_from_cli(
    is_adapter: bool,
    f: &SourceFlags,
    profile: &Option<Result<AdapterProfile, Error>>,
) -> (r: Result<Option<Vec<AdapterSpec>>, Error>)
    ensures
        ({
            let source = if is_adapter {
                Some("adapter"@)
            } else {
                None
            };
            match r {
                Ok(Some(v)) => flag_sources(source, *f, *profile) == Ok::<
                    Option<Seq<SourceView>>,
                    (ErrorKind, Seq<char>),
                >(Some(source_views(v@))),
                Ok(None) => flag_sources(source, *f, *profile) == Ok::<
                    Option<Seq<SourceView>>,
                    (ErrorKind, Seq<char>),
                >(None),
                Err(e) => flag_sources(source, *f, *profile) == Err::<
                    Option<Seq<SourceView>>,
                    (ErrorKind, Seq<char>),
                >(e@),
            }
        }),
{
    if !is_adapter && f.extra_source.len() == 0 {
        return Ok(None);
    }
    let mut out: Vec<AdapterSpec> = Vec::new();
    proof {
        assert(source_views(out@) =~= Seq::<SourceView>::empty());
    }
    if is_adapter {
        let none: Vec<String> = Vec::new();
        proof {
            assert(texts(none@) =~= Seq::<Seq<char>>::empty());
        }
        match build_adapter_spec_from_cli(f, &none, profile) {
            Ok(s) => {
                out.push(s);
                proof {
                    assert(source_views(out@) =~= seq![source_view(s)]);
                }
            },
            Err(e) => {
                return Err(e);
            },
        }
    } else if profile.is_some() {
        return Err(fail(STRAY_PROFILE.to_owned()));
    }
    match push_extra_sources(&mut out, &f.extra_source) {
        Ok(_) => Ok(Some(out)),
        Err(e) => Err(e),
    }
}

/// Every flag that is given decides its own setting: no other flag and no file does. A flag that asks
/// for something switches it on.
pub proof fn law_each_flag_decides_its_setting<N: Number>(e: ExecutionConfig<N>, f: ExecFlags<N>)
    ensures
        ({
            let r = with_flags(e, f);
            &&& f.no_fees ==> !r.include_fees
            &&& !f.no_fees ==> r.include_fees == e.include_fees
            &&& f.rewards ==> r.include_rewards && r.rewards.enabled
            &&& !f.rewards ==> r.include_rewards == e.include_rewards
            &&& f.reward_per_period is Some ==> r.rewards.enabled && r.rewards.reward_per_period
                == f.reward_per_period->0
            &&& f.reward_period_secs is Some ==> r.rewards.period_secs == f.reward_period_secs->0
            &&& f.min_resting_size is Some ==> r.rewards.min_resting_size == f.min_resting_size->0
            &&& f.max_spread_cents is Some ==> r.rewards.max_spread_cents == f.max_spread_cents->0
            &&& r.rewards.both_sides_required == e.rewards.both_sides_required
            &&& f.latency_ns is Some ==> r.latency.order_latency_ns == f.latency_ns->0
            &&& f.latency_ns is Some && f.latency_ns->0 > 0 ==> r.latency.enabled
            &&& f.cancel_latency_ns is Some ==> r.latency.enabled && r.latency.cancel_latency_ns
                == f.cancel_latency_ns->0
            &&& f.md_latency_ns is Some ==> r.latency.enabled && r.latency.market_data_latency_ns
                == f.md_latency_ns->0
            &&& f.jitter_ns is Some ==> r.latency.enabled && r.latency.jitter_ns == f.jitter_ns->0
            &&& f.slippage_ticks is Some ==> r.slippage.taker_ticks == f.slippage_ticks->0
            &&& f.slippage_ticks is Some && f.slippage_ticks->0 > 0 ==> r.slippage.enabled
            &&& f.slippage_bps is Some ==> r.slippage.enabled && r.slippage.taker_bps
                == f.slippage_bps->0
            &&& f.queue_model is Some ==> r.queue.model == f.queue_model->0
            &&& f.settlements is Some ==> r.settlement.path == f.settlements
            &&& f.max_order_qty is Some ==> r.risk.max_order_qty == f.max_order_qty
            &&& f.max_position is Some ==> r.risk.max_position_per_instrument == f.max_position
            &&& f.max_gross is Some ==> r.risk.max_gross_position == f.max_gross
            &&& f.equity_floor is Some ==> r.risk.equity_floor == f.equity_floor
            &&& f.max_drawdown_pct is Some ==> r.risk.max_drawdown_pct == f.max_drawdown_pct
        }),
        ({
            let r = with_flags(e, f);
            &&& f.reward_per_period is None ==> r.rewards.reward_per_period
                == e.rewards.reward_per_period
            &&& f.reward_period_secs is None ==> r.rewards.period_secs == e.rewards.period_secs
            &&& f.min_resting_size is None ==> r.rewards.min_resting_size
                == e.rewards.min_resting_size
            &&& f.max_spread_cents is None ==> r.rewards.max_spread_cents
                == e.rewards.max_spread_cents
            &&& f.latency_ns is None ==> r.latency.order_latency_ns == e.latency.order_latency_ns
            &&& f.cancel_latency_ns is None ==> r.latency.cancel_latency_ns
                == e.latency.cancel_latency_ns
            &&& f.md_latency_ns is None ==> r.latency.market_data_latency_ns
                == e.latency.market_data_latency_ns
            &&& f.jitter_ns is None ==> r.latency.jitter_ns == e.latency.jitter_ns
            &&& f.slippage_ticks is None ==> r.slippage.taker_ticks == e.slippage.taker_ticks
            &&& f.slippage_bps is None ==> r.slippage.taker_bps == e.slippage.taker_bps
            &&& f.queue_model is None ==> r.queue.model == e.queue.model
            &&& f.settlements is None ==> r.settlement.path == e.settlement.path
            &&& f.max_order_qty is None ==> r.risk.max_order_qty == e.risk.max_order_qty
            &&& f.max_position is None ==> r.risk.max_position_per_instrument
                == e.risk.max_position_per_instrument
            &&& f.max_gross is None ==> r.risk.max_gross_position == e.risk.max_gross_position
            &&& f.equity_floor is None ==> r.risk.equity_floor == e.risk.equity_floor
            &&& f.max_drawdown_pct is None ==> r.risk.max_drawdown_pct == e.risk.max_drawdown_pct
            &&& r.latency.enabled ==> e.latency.enabled || f.latency_ns is Some
                || f.cancel_latency_ns is Some || f.md_latency_ns is Some || f.jitter_ns is Some
            &&& r.slippage.enabled ==> e.slippage.enabled || f.slippage_ticks is Some
                || f.slippage_bps is Some
            &&& r.rewards.enabled ==> e.rewards.enabled || f.rewards || f.reward_per_period is Some
        }),
{
}

/// The distribution that is asked for is the one that is made, with the numbers that are given for it:
/// a normal one lies about the plain delay, and an exponential one has the mean that is given, or else
/// the plain delay. A number that is not given is 0.
pub proof fn law_distributions_are_as_asked(
    d: LatencyDist,
    kind: LatencyDistArg,
    l: LatencyFlags,
    latency_ns: Option<i64>,
)
    requires
        dist_matches(d, kind, l, latency_ns),
    ensures
        kind is Fixed ==> d is Fixed,
        kind is Uniform ==> (d matches LatencyDist::Uniform { min_ns, max_ns } && (l.min_ns is Some
            ==> min_ns == l.min_ns->0) && (l.max_ns is Some ==> max_ns == l.max_ns->0) && (
        l.min_ns is None ==> min_ns == 0) && (l.max_ns is None ==> max_ns == 0)),
        kind is Normal ==> (d matches LatencyDist::Normal { mean_ns, std_ns } && (latency_ns is Some
            ==> mean_ns == latency_ns->0) && (l.std_ns is Some ==> std_ns == l.std_ns->0)),
        kind is Exponential ==> (d matches LatencyDist::Exponential { mean_ns } && (
        l.mean_ns is Some ==> mean_ns == l.mean_ns->0) && (l.mean_ns is None && latency_ns is Some
            ==> mean_ns == latency_ns->0)),
        kind is Empirical ==> (d matches LatencyDist::Empirical { path } && (l.empirical is Some
            ==> path@ == l.empirical->0@)),
{
}

} // verus!
