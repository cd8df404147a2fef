//! Where the events of a command come from.
use crate::adapters::{date_to_ns_opt, opt_date_ns, opt_text, AdapterSpec};
use crate::cli::args::{source_view, DataSourceArgs, RunSpec};
use crate::cli::checks::{check_validated, validated_flaw, NEED_NDJSON};
use crate::cli::resolve::{bad, fail, or_empty, text_or_empty};
use crate::error::{Error, ErrorKind};
use crate::number::Number;
use crate::text::{concat2, concat3, same_text, texts};
use vstd::prelude::*;

verus! {

/// What is to be loaded.
#[derive(Debug, Clone, PartialEq, Eq)]
pub enum LoadPlan {
    /// The sources of adapters, merged.
    Sources,
    /// A capture in a file, from `start_ns` up to but without `end_ns`.
    Capture { path: String, start_ns: Option<i64>, end_ns: Option<i64> },
    /// A database.
    Database,
}

/// What is to be loaded, as contracts speak of it.
pub enum LoadView {
    Sources,
    Capture { path: Seq<char>, start_ns: Option<i64>, end_ns: Option<i64> },
    Database,
}

impl View for LoadPlan {
    type V = LoadView;

    open spec fn view(&self) -> LoadView {
        match *self {
            LoadPlan::Sources => LoadView::Sources,
            LoadPlan::Capture { path, start_ns, end_ns } => LoadView::Capture {
                path: path@,
                start_ns,
                end_ns,
            },
            LoadPlan::Database => LoadView::Database,
        }
    }
}

/// A plan, or the reason why there is none.
pub type Planned = Result<LoadView, (ErrorKind, Seq<char>)>;

/// What a plan says.
pub open spec fn planned(r: Result<LoadPlan, Error>) -> Planned {
    match r {
        Ok(p) => Ok(p@),
        Err(e) => Err(e@),
    }
}

/// The times between two days. The first one that is no day is the reason why there are none.
pub open spec fn window_of(start: Option<String>, end: Option<String>) -> Result<
    (Option<i64>, Option<i64>),
    (ErrorKind, Seq<char>),
> {
    match opt_date_ns(start) {
        Err(e) => Err(e),
        Ok(a) => match opt_date_ns(end) {
            Err(e) => Err(e),
            Ok(b) => Ok((a, b)),
        },
    }
}

/// The times between two days.
pub fn time_window(start: &Option<String>, end: &Option<String>) -> (r: Result<
    (Option<i64>, Option<i64>),
    Error,
>)
    ensures
        match r {
            Ok(w) => window_of(*start, *end) == Ok::<
                (Option<i64>, Option<i64>),
                (ErrorKind, Seq<char>),
            >(w),
            Err(e) => window_of(*start, *end) == Err::<
                (Option<i64>, Option<i64>),
                (ErrorKind, Seq<char>),
            >(e@),
        },
{
    let a = match date_to_ns_opt(start) {
        Ok(a) => a,
        Err(e) => {
            return Err(e);
        },
    };
    match date_to_ns_opt(end) {
        Ok(b) => Ok((a, b)),
        Err(e) => Err(e),
    }
}

/// What a run is to load: its merged sources, where it has any; else its capture or its database.
pub open spec fn run_load_of<N>(spec: RunSpec<N>) -> Planned {
    if spec.sources@.len() > 0 {
        Ok(LoadView::Sources)
    } else {
        match window_of(spec.start, spec.end) {
            Err(e) => Err(e),
            Ok((start_ns, end_ns)) => if spec.source@ == "ndjson"@ {
                Ok(LoadView::Capture { path: or_empty(spec.ndjson), start_ns, end_ns })
            } else if spec.source@ == "clickhouse"@ {
                Ok(LoadView::Database)
            } else {
                Err(bad("unknown source "@ + spec.source@))
            },
        }
    }
}

/// What a run is to load.
pub fn plan_run_load<N: Number>(spec: &RunSpec<N>) -> (r: Result<LoadPlan, Error>)
    ensures
        planned(r) == run_load_of(*spec),
{
    if spec.sources.len() > 0 {
        return Ok(LoadPlan::Sources);
    }
    let (start_ns, end_ns) = match time_window(&spec.start, &spec.end) {
        Ok(w) => w,
        Err(e) => {
            return Err(e);
        },
    };
    if same_text(spec.source.as_str(), "ndjson") {
        Ok(LoadPlan::Capture { path: text_or_empty(&spec.ndjson), start_ns, end_ns })
    } else if same_text(spec.source.as_str(), "clickhouse") {
        Ok(LoadPlan::Database)
    } else {
        Err(fail(concat2("unknown source ", spec.source.as_str())))
    }
}

/// What a command that looks at a source is to load: captures alone.
pub open spec fn look_load_of(args: DataSourceArgs) -> Planned {
    match window_of(args.from.start, args.from.end) {
        Err(e) => Err(e),
        Ok((start_ns, end_ns)) => if args.source@ == "ndjson"@ {
            match opt_text(args.from.ndjson) {
                Some(path) => Ok(LoadView::Capture { path, start_ns, end_ns }),
                None => Err(bad(NEED_NDJSON@)),
            }
        } else {
            Err(bad("unsupported source "@ + args.source@ + " for this command"@))
        },
    }
}

/// What a command that looks at a source is to load.
pub fn plan_look_load(args: &DataSourceArgs) -> (r: Result<LoadPlan, Error>)
    ensures
        planned(r) == look_load_of(*args),
{
    let (start_ns, end_ns) = match time_window(&args.from.start, &args.from.end) {
        Ok(w) => w,
        Err(e) => {
            return Err(e);
        },
    };
    if same_text(args.source.as_str(), "ndjson") {
        match &args.from.ndjson {
            Some(p) => Ok(LoadPlan::Capture { path: p.clone(), start_ns, end_ns }),
            None => Err(fail(NEED_NDJSON.to_owned())),
        }
    } else {
        Err(fail(concat3("unsupported source ", args.source.as_str(), " for this command")))
    }
}

/// What is to be loaded for a validation. The days are looked at first, and the source then.
pub open spec fn validated_load_of(
    args: DataSourceArgs,
    spec: Option<AdapterSpec>,
    present: Seq<Seq<char>>,
) -> Planned {
    match window_of(args.from.start, args.from.end) {
        Err(e) => Err(e),
        Ok((start_ns, end_ns)) => match validated_flaw(
            args,
            match spec {
                Some(s) => Some(source_view(s)),
                None => None,
            },
            present,
        ) {
            Some(flaw) => Err(flaw),
            None => if args.source@ == "adapter"@ {
                Ok(LoadView::Sources)
            } else if args.source@ == "clickhouse"@ {
                Ok(LoadView::Database)
            } else {
                Ok(LoadView::Capture { path: or_empty(args.from.ndjson), start_ns, end_ns })
            },
        },
    }
}

/// What is to be loaded for a validation. `present` lists the files that are there.
pub fn plan_validated_load(
    args: &DataSourceArgs,
    spec: &Option<AdapterSpec>,
    present: &Vec<String>,
) -> (r: Result<LoadPlan, Error>)
    ensures
        planned(r) == validated_load_of(*args, *spec, texts(present@)),
{
    let (start_ns, end_ns) = match time_window(&args.from.start, &args.from.end) {
        Ok(w) => w,
        Err(e) => {
            return Err(e);
        },
    };
    if let Err(e) = check_validated(args, spec, present) {
        return Err(e);
    }
    if same_text(args.source.as_str(), "adapter") {
        Ok(LoadPlan::Sources)
    } else if same_text(args.source.as_str(), "clickhouse") {
        Ok(LoadPlan::Database)
    } else {
        Ok(LoadPlan::Capture { path: text_or_empty(&args.from.ndjson), start_ns, end_ns })
    }
}

} // verus!
