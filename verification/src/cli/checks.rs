//! The checks that a plan has to pass before anything is read.
use crate::adapters::registry::{distinct_names, keys_of, last_named};
use crate::adapters::{
    date_ns, date_to_ns, opt_text, Adapter, AdapterRegistry, AdapterSpec,
};
use crate::cli::args::{
    source_view, source_views, DataSourceArgs, RunSpec, RunView, SourceView,
};
use crate::cli::resolve::{bad, or_empty};
use crate::error::{because, Error, ErrorKind};
use crate::number::Number;
use crate::text::{chars_of, concat2, concat3, join, joined, same_text, texts};
use vstd::prelude::*;

verus! {

/// A place is given as an address rather than as a file: it holds `://`.
pub open spec fn is_address(path: Seq<char>) -> bool {
    exists|i: int|
        0 <= i && i + 2 < path.len() && #[trigger] path[i] == ':' && path[i + 1] == '/' && path[i
            + 2] == '/'
}

/// Whether a place is given as an address.
pub fn names_address(path: &str) -> (r: bool)
    ensures
        r == is_address(path@),
{
    let v = chars_of(path);
    let colon: char = ':';
    let slash: char = '/';
    let n: usize = v.len();
    let mut i: usize = 0;
    while n - i >= 3
        invariant
            i <= n,
            n == v@.len(),
            v@ == path@,
            colon == ':',
            slash == '/',
            forall|j: int|
                0 <= j < i && j + 2 < n ==> !(#[trigger] path@[j] == ':' && path@[j + 1] == '/'
                    && path@[j + 2] == '/'),
        decreases n - i,
    {
        if v[i] == colon && v[i + 1] == slash && v[i + 2] == slash {
            proof {
                assert(path@[i as int] == ':');
            }
            return true;
        }
        i += 1;
    }
    false
}

/// What is told of a file that is not there.
pub open spec fn absent(path: Seq<char>, what: Seq<char>) -> (ErrorKind, Seq<char>) {
    (
        ErrorKind::NotFound,
        what + " file not found: "@ + path
            + " — check the path (it is resolved relative to the current directory)"@,
    )
}

/// Whether a text is among some.
pub fn listed(list: &Vec<String>, s: &str) -> (r: bool)
    ensures
        r == texts(list@).contains(s@),
{
    let n: usize = list.len();
    let mut i: usize = 0;
    while i < n
        invariant
            i <= n,
            n == list@.len(),
            forall|j: int| 0 <= j < i ==> #[trigger] texts(list@)[j] != s@,
        decreases n - i,
    {
        if same_text(list[i].as_str(), s) {
            proof {
                assert(texts(list@)[i as int] == s@);
            }
            return true;
        }
        i += 1;
    }
    false
}

/// Fails where a file is not among those that are there.
pub fn ensure_file_exists(path: &str, what: &str, present: &Vec<String>) -> (r: Result<(), Error>)
    ensures
        match r {
            Ok(_) => texts(present@).contains(path@),
            Err(e) => !texts(present@).contains(path@) && e@ == absent(path@, what@),
        },
{
    if listed(present, path) {
        Ok(())
    } else {
        let mut m = what.to_owned();
        m.append(" file not found: ");
        m.append(path);
        m.append(" — check the path (it is resolved relative to the current directory)");
        Err(Error::new(ErrorKind::NotFound, m))
    }
}

/// What is wrong with a date, if anything.
pub open spec fn date_flaw(date: Option<Seq<char>>, context: Seq<char>) -> Option<
    (ErrorKind, Seq<char>),
> {
    match date {
        Some(d) => match date_ns(d) {
            Ok(_) => None,
            Err(cause) => Some((cause.0, because(context, cause.1))),
        },
        None => None,
    }
}

fn check_date(date: &Option<String>, context: &str) -> (r: Result<(), Error>)
    ensures
        match r {
            Ok(_) => date_flaw(opt_text(*date), context@) is None,
            Err(e) => date_flaw(opt_text(*date), context@) == Some(e@),
        },
{
    if let Some(d) = date {
        if let Err(e) = date_to_ns(d.as_str()) {
            return Err(Error::caused(e.kind, context, e.message.as_str()));
        }
    }
    Ok(())
}

/// The names of the adapters that come with the library.
pub open spec fn builtin_keys() -> Seq<Seq<char>> {
    seq![
        "kalshi_ndjson"@,
        "generic_ndjson"@,
        "generic_csv"@,
        "polymarket"@,
        "hyperliquid"@,
    ]
}

/// What is wrong with a source, if anything.
pub open spec fn source_flaw(s: SourceView, present: Seq<Seq<char>>) -> Option<
    (ErrorKind, Seq<char>),
> {
    if last_named(builtin_keys(), s.adapter) is None {
        Some(
            (
                ErrorKind::UnknownAdapter,
                "unknown adapter '"@ + s.adapter + "' in sources — known: "@ + joined(
                    distinct_names(builtin_keys()),
                    ", "@,
                ),
            ),
        )
    } else if !is_address(s.path) && !present.contains(s.path) {
        Some(absent(s.path, "adapter '"@ + s.adapter + "'"@))
    } else {
        match date_flaw(s.start, "invalid source start date"@) {
            Some(e) => Some(e),
            None => date_flaw(s.end, "invalid source end date"@),
        }
    }
}

/// What is wrong with the first of some sources with which anything is.
pub open spec fn sources_flaw(sources: Seq<SourceView>, present: Seq<Seq<char>>) -> Option<
    (ErrorKind, Seq<char>),
>
    decreases sources.len(),
{
    if sources.len() == 0 {
        None
    } else {
        match sources_flaw(sources.drop_last(), present) {
            Some(e) => Some(e),
            None => source_flaw(sources.last(), present),
        }
    }
}

proof fn lemma_first_flaw(sources: Seq<SourceView>, present: Seq<Seq<char>>, i: int)
    requires
        0 <= i <= sources.len(),
        sources_flaw(sources.take(i), present) is Some,
    ensures
        sources_flaw(sources, present) == sources_flaw(sources.take(i), present),
    decreases sources.len() - i,
{
    if i == sources.len() {
        assert(sources.take(i) =~= sources);
    } else {
        assert(sources.take(i + 1).drop_last() =~= sources.take(i));
        lemma_first_flaw(sources, present, i + 1);
    }
}

fn check_source(
    reg: &AdapterRegistry<Adapter>,
    s: &AdapterSpec,
    present: &Vec<String>,
) -> (r: Result<(), Error>)
    requires
        keys_of(reg.adapters@) == builtin_keys(),
    ensures
        match r {
            Ok(_) => source_flaw(source_view(*s), texts(present@)) is None,
            Err(e) => source_flaw(source_view(*s), texts(present@)) == Some(e@),
        },
{
    if reg.get(s.adapter.as_str()).is_none() {
        let names = reg.names();
        let known = join(&names, ", ");
        let head = concat3("unknown adapter '", s.adapter.as_str(), "' in sources — known: ");
        return Err(
            Error::new(ErrorKind::UnknownAdapter, concat2(head.as_str(), known.as_str())),
        );
    }
    if !names_address(s.path.as_str()) {
        let what = concat3("adapter '", s.adapter.as_str(), "'");
        if let Err(e) = ensure_file_exists(s.path.as_str(), what.as_str(), present) {
            return Err(e);
        }
    }
    if let Err(e) = check_date(&s.start, "invalid source start date") {
        return Err(e);
    }
    check_date(&s.end, "invalid source end date")
}

fn check_sources(sources: &Vec<AdapterSpec>, present: &Vec<String>) -> (r: Result<(), Error>)
    ensures
        match r {
            Ok(_) => sources_flaw(source_views(sources@), texts(present@)) is None,
            Err(e) => sources_flaw(source_views(sources@), texts(present@)) == Some(e@),
        },
{
    let reg = AdapterRegistry::with_builtins();
    let ghost all = source_views(sources@);
    let n: usize = sources.len();
    let mut i: usize = 0;
    while i < n
        invariant
            i <= n,
            n == sources@.len(),
            all == source_views(sources@),
            keys_of(reg.adapters@) == builtin_keys(),
            sources_flaw(all.take(i as int), texts(present@)) is None,
        decreases n - i,
    {
        proof {
            assert(all.take(i + 1).drop_last() =~= all.take(i as int));
            assert(all.take(i + 1).last() == source_view(sources@[i as int]));
        }
        if let Err(e) = check_source(&reg, &sources[i], present) {
            proof {
                lemma_first_flaw(all, texts(present@), i + 1);
            }
            return Err(e);
        }
        i += 1;
    }
    proof {
        assert(all.take(n as int) =~= all);
    }
    Ok(())
}

/// How to give what is missing.
pub open spec fn hint(had_config: bool) -> Seq<char> {
    if had_config {
        "set it in the --config file or pass the flag"@
    } else {
        "pass the flag"@
    }
}

fn hint_text(had_config: bool) -> (r: &'static str)
    ensures
        r@ == hint(had_config),
{
    if had_config {
        "set it in the --config file or pass the flag"
    } else {
        "pass the flag"
    }
}

/// What is wrong with the name of a strategy, if anything.
pub open spec fn strategy_flaw(
    strategy: Seq<char>,
    had_config: bool,
    strategies: Seq<Seq<char>>,
) -> Option<(ErrorKind, Seq<char>)> {
    if strategy.len() == 0 {
        Some(
            bad(
                "no strategy — "@ + hint(had_config)
                    + " (--strategy <name>; see `list-strategies`)"@,
            ),
        )
    } else if !strategies.contains(strategy) {
        Some(
            bad(
                "unknown strategy '"@ + strategy
                    + "' — run `kalshi-backtest list-strategies` for the full list"@,
            ),
        )
    } else {
        None
    }
}

fn check_strategy(strategy: &str, had_config: bool, strategies: &Vec<String>) -> (r: Result<
    (),
    Error,
>)
    ensures
        match r {
            Ok(_) => strategy_flaw(strategy@, had_config, texts(strategies@)) is None,
            Err(e) => strategy_flaw(strategy@, had_config, texts(strategies@)) == Some(e@),
        },
{
    if strategy.unicode_len() == 0 {
        return Err(
            Error::new(
                ErrorKind::BadArgument,
                concat3(
                    "no strategy — ",
                    hint_text(had_config),
                    " (--strategy <name>; see `list-strategies`)",
                ),
            ),
        );
    }
    if !listed(strategies, strategy) {
        return Err(
            Error::new(
                ErrorKind::BadArgument,
                concat3(
                    "unknown strategy '",
                    strategy,
                    "' — run `kalshi-backtest list-strategies` for the full list",
                ),
            ),
        );
    }
    Ok(())
}

/// What is told where a capture is to be read and none is named.
pub const NEED_NDJSON: &'static str = "--ndjson <path> required for --source ndjson";

/// What is wrong with the place of a single source, if anything.
pub open spec fn place_flaw<N>(spec: RunView<N>, present: Seq<Seq<char>>) -> Option<
    (ErrorKind, Seq<char>),
> {
    if spec.source == "ndjson"@ {
        match spec.ndjson {
            None => Some(bad(NEED_NDJSON@)),
            Some(p) => if present.contains(p) {
                None
            } else {
                Some(absent(p, "ndjson"@))
            },
        }
    } else if spec.clickhouse is None || spec.clickhouse->0.len() == 0 {
        Some(
            bad(
                "--clickhouse <url> required for --source clickhouse (e.g. http://localhost:8123)"@,
            ),
        )
    } else {
        None
    }
}

/// What is wrong with a run, if anything: the first of all its flaws. Where sources are listed,
/// the single source does not matter.
pub open spec fn plan_flaw<N>(
    spec: RunView<N>,
    had_config: bool,
    present: Seq<Seq<char>>,
    strategies: Seq<Seq<char>>,
) -> Option<(ErrorKind, Seq<char>)> {
    if spec.sources.len() > 0 {
        match sources_flaw(spec.sources, present) {
            Some(e) => Some(e),
            None => strategy_flaw(spec.strategy, had_config, strategies),
        }
    } else if spec.source.len() == 0 {
        Some(
            bad(
                "no data source — "@ + hint(had_config)
                    + " (--source ndjson|clickhouse|adapter)"@,
            ),
        )
    } else if spec.source != "ndjson"@ && spec.source != "clickhouse"@ {
        Some(
            bad(
                "unknown source '"@ + spec.source
                    + "' — expected ndjson, clickhouse, or adapter"@,
            ),
        )
    } else {
        match strategy_flaw(spec.strategy, had_config, strategies) {
            Some(e) => Some(e),
            None => match place_flaw(spec, present) {
                Some(e) => Some(e),
                None => match date_flaw(spec.start, "invalid --start date"@) {
                    Some(e) => Some(e),
                    None => date_flaw(spec.end, "invalid --end date"@),
                },
            },
        }
    }
}

fn check_place<N: Number>(spec: &RunSpec<N>, present: &Vec<String>) -> (r: Result<(), Error>)
    ensures
        match r {
            Ok(_) => place_flaw(spec@, texts(present@)) is None,
            Err(e) => place_flaw(spec@, texts(present@)) == Some(e@),
        },
{
    if same_text(spec.source.as_str(), "ndjson") {
        return match &spec.ndjson {
            None => Err(Error::new(ErrorKind::BadArgument, NEED_NDJSON.to_owned())),
            Some(p) => ensure_file_exists(p.as_str(), "ndjson", present),
        };
    }
    let named = match &spec.clickhouse {
        None => false,
        Some(u) => u.as_str().unicode_len() > 0,
    };
    if named {
        Ok(())
    } else {
        Err(
            Error::new(
                ErrorKind::BadArgument,
                "--clickhouse <url> required for --source clickhouse (e.g. http://localhost:8123)".to_owned(),
            ),
        )
    }
}

/// Checks a run before anything is read: what it reads has to be named and to be there, its
/// adapters and its strategy have to be known, and its dates have to be dates. `present` holds the
/// files that are there.
pub fn validate_resolved<N: Number>(
    spec: &RunSpec<N>,
    had_config: bool,
    present: &Vec<String>,
    strategies: &Vec<String>,
) -> (r: Result<(), Error>)
    ensures
        match r {
            Ok(_) => plan_flaw(spec@, had_config, texts(present@), texts(strategies@)) is None,
            Err(e) => plan_flaw(spec@, had_config, texts(present@), texts(strategies@)) == Some(e@),
        },
{
    if spec.sources.len() > 0 {
        if let Err(e) = check_sources(&spec.sources, present) {
            return Err(e);
        }
        return check_strategy(spec.strategy.as_str(), had_config, strategies);
    }
    if spec.source.as_str().unicode_len() == 0 {
        return Err(
            Error::new(
                ErrorKind::BadArgument,
                concat3(
                    "no data source — ",
                    hint_text(had_config),
                    " (--source ndjson|clickhouse|adapter)",
                ),
            ),
        );
    }
    if !same_text(spec.source.as_str(), "ndjson") && !same_text(
        spec.source.as_str(),
        "clickhouse",
    ) {
        return Err(
            Error::new(
                ErrorKind::BadArgument,
                concat3(
                    "unknown source '",
                    spec.source.as_str(),
                    "' — expected ndjson, clickhouse, or adapter",
                ),
            ),
        );
    }
    if let Err(e) = check_strategy(spec.strategy.as_str(), had_config, strategies) {
        return Err(e);
    }
    if let Err(e) = check_place(spec, present) {
        return Err(e);
    }
    if let Err(e) = check_date(&spec.start, "invalid --start date") {
        return Err(e);
    }
    check_date(&spec.end, "invalid --end date")
}

/// A run that passes the checks names a strategy that is known; and unless it lists its sources,
/// it names one that it can read.
pub proof fn law_checked_runs_can_start<N>(
    spec: RunView<N>,
    had_config: bool,
    present: Seq<Seq<char>>,
    strategies: Seq<Seq<char>>,
)
    requires
        plan_flaw(spec, had_config, present, strategies) is None,
    ensures
        strategies.contains(spec.strategy),
        spec.sources.len() == 0 ==> spec.source == "ndjson"@ || spec.source == "clickhouse"@,
        spec.sources.len() == 0 && spec.source == "ndjson"@ ==> (spec.ndjson matches Some(p)
            && present.contains(p)),
{
}

/// In a run that passes the checks, every listed source has a known adapter, and its file is
/// there.
pub proof fn law_checked_sources_are_there(
    sources: Seq<SourceView>,
    present: Seq<Seq<char>>,
    i: int,
)
    requires
        sources_flaw(sources, present) is None,
        0 <= i < sources.len(),
    ensures
        last_named(builtin_keys(), sources[i].adapter) is Some,
        is_address(sources[i].path) || present.contains(sources[i].path),
    decreases sources.len(),
{
    if i < sources.len() - 1 {
        law_checked_sources_are_there(sources.drop_last(), present, i);
    }
}

/// What is wrong with a source that a command is to look at, if anything.
pub open spec fn look_flaw(
    source: Seq<char>,
    ndjson: Option<Seq<char>>,
    clickhouse: Seq<char>,
    present: Seq<Seq<char>>,
) -> Option<(ErrorKind, Seq<char>)> {
    if source == "ndjson"@ {
        match ndjson {
            None => Some(bad(NEED_NDJSON@)),
            Some(p) => if present.contains(p) {
                None
            } else {
                Some(absent(p, "ndjson"@))
            },
        }
    } else if source == "clickhouse"@ {
        if clickhouse.len() == 0 {
            Some(bad("--clickhouse <url> required for --source clickhouse"@))
        } else {
            None
        }
    } else {
        Some(bad("unknown source "@ + source))
    }
}

/// Checks that the kind of a source and its place go together.
pub fn validate_data_source(args: &DataSourceArgs, present: &Vec<String>) -> (r: Result<(), Error>)
    ensures
        ({
            let flaw = look_flaw(
                args.source@,
                opt_text(args.from.ndjson),
                or_empty(args.from.clickhouse),
                texts(present@),
            );
            match r {
                Ok(_) => flaw is None,
                Err(e) => flaw == Some(e@),
            }
        }),
{
    if same_text(args.source.as_str(), "ndjson") {
        match &args.from.ndjson {
            None => Err(Error::new(ErrorKind::BadArgument, NEED_NDJSON.to_owned())),
            Some(p) => ensure_file_exists(p.as_str(), "ndjson", present),
        }
    } else if same_text(args.source.as_str(), "clickhouse") {
        let named = match &args.from.clickhouse {
            None => false,
            Some(u) => u.as_str().unicode_len() > 0,
        };
        if named {
            Ok(())
        } else {
            Err(
                Error::new(
                    ErrorKind::BadArgument,
                    "--clickhouse <url> required for --source clickhouse".to_owned(),
                ),
            )
        }
    } else {
        Err(Error::new(ErrorKind::BadArgument, concat2("unknown source ", args.source.as_str())))
    }
}

/// What is wrong with a source that is to be validated, if anything. `spec` is what the flags
/// describe where the kind of source is `adapter`.
pub open spec fn validated_flaw(
    args: DataSourceArgs,
    spec: Option<SourceView>,
    present: Seq<Seq<char>>,
) -> Option<(ErrorKind, Seq<char>)> {
    if args.source@ == "adapter"@ && spec is Some {
        let s = spec->0;
        if !is_address(s.path) && !present.contains(s.path) {
            Some(absent(s.path, "adapter '"@ + s.adapter + "'"@))
        } else if last_named(builtin_keys(), s.adapter) is None {
            Some(
                (
                    ErrorKind::UnknownAdapter,
                    "unknown adapter '"@ + s.adapter + "' — known: "@ + joined(
                        distinct_names(builtin_keys()),
                        ", "@,
                    ),
                ),
            )
        } else {
            None
        }
    } else if args.source@ == "clickhouse"@ {
        if args.from.clickhouse is None {
            Some(bad("--clickhouse <url> required for --source clickhouse"@))
        } else {
            None
        }
    } else {
        look_flaw(args.source@, opt_text(args.from.ndjson), Seq::empty(), present)
    }
}

/// Checks a source that is to be validated.
pub fn check_validated(
    args: &DataSourceArgs,
    spec: &Option<AdapterSpec>,
    present: &Vec<String>,
) -> (r: Result<(), Error>)
    ensures
        ({
            let flaw = validated_flaw(
                *args,
                match *spec {
                    Some(s) => Some(source_view(s)),
                    None => None,
                },
                texts(present@),
            );
            match r {
                Ok(_) => flaw is None,
                Err(e) => flaw == Some(e@),
            }
        }),
{
    if same_text(args.source.as_str(), "adapter") {
        if let Some(s) = spec {
            if !names_address(s.path.as_str()) {
                let what = concat3("adapter '", s.adapter.as_str(), "'");
                if let Err(e) = ensure_file_exists(s.path.as_str(), what.as_str(), present) {
                    return Err(e);
                }
            }
            let reg = AdapterRegistry::with_builtins();
            if reg.get(s.adapter.as_str()).is_none() {
                let names = reg.names();
                let known = join(&names, ", ");
                let head = concat3("unknown adapter '", s.adapter.as_str(), "' — known: ");
                return Err(
                    Error::new(
                        ErrorKind::UnknownAdapter,
                        concat2(head.as_str(), known.as_str()),
                    ),
                );
            }
            return Ok(());
        }
    }
    if same_text(args.source.as_str(), "clickhouse") {
        if args.from.clickhouse.is_none() {
            return Err(
                Error::new(
                    ErrorKind::BadArgument,
                    "--clickhouse <url> required for --source clickhouse".to_owned(),
                ),
            );
        }
        return Ok(());
    }
    if same_text(args.source.as_str(), "ndjson") {
        return match &args.from.ndjson {
            None => Err(Error::new(ErrorKind::BadArgument, NEED_NDJSON.to_owned())),
            Some(p) => ensure_file_exists(p.as_str(), "ndjson", present),
        };
    }
    Err(Error::new(ErrorKind::BadArgument, concat2("unknown source ", args.source.as_str())))
}

} // verus!
