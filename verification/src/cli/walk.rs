//! Walks forward through time: parameters are chosen on one part of a timeline and tried on the
//! next.
use crate::cli::resolve::{bad, fail};
use crate::cli::show::{
    cell_text, cut, fmt_csv, fmt_metric, left, metric_text, pad_left, pad_right, right, truncate,
};
use crate::cli::tables::say;
use crate::config::BacktestConfig;
use crate::engine::{FilesView, RunFiles};
use crate::error::{Error, ErrorKind};
use crate::fixed::{cut_quotient, law_quotients_are_cut, lemma_cut, Fixed, LARGEST};
use crate::number::{count, tally, Analytic, Number};
use crate::optimize::{
    best_index, best_of, law_best_is_a_number, law_parts_tile, part_start, made_summary, run_grid, scores, settings_of,
    split_segments, Combo, Metric, StrategyBuilder,
};
use crate::text::{concat2, concat3, decimal, joined, texts, u64_text};
use crate::types::{event_views, EventView, MarketEvent, Summary};
use vstd::prelude::*;
use vstd::slice::slice_subrange;

verus! {

/// What came of one fold.
#[derive(Debug)]
pub struct FoldResult<N> {
    pub fold: usize,
    /// The events that the parameters were chosen on.
    pub train_range: (usize, usize),
    /// The events that they were tried on.
    pub test_range: (usize, usize),
    pub chosen: Combo<N>,
    pub in_sample_metric: N,
    pub oos_metric: N,
    pub oos_pnl: N,
}

/// The part of a timeline with a number, of one part more than there are folds.
pub open spec fn part_of<N>(events: Seq<EventView<N>>, folds: nat, i: nat) -> Seq<EventView<N>> {
    events.subrange(
        part_start(events.len(), folds + 1, i) as int,
        part_start(events.len(), folds + 1, i + 1) as int,
    )
}

/// A combination is the best of all on some events, with its value of the metric.
pub open spec fn chosen_on<N: Analytic, B: StrategyBuilder<N>>(
    train: Seq<EventView<N>>,
    cfg: BacktestConfig<N>,
    files: FilesView,
    builder: B,
    strategy: Seq<char>,
    combos: Seq<Combo<N>>,
    metric: Metric,
    results: Seq<(Combo<N>, Summary<N>)>,
    chosen: Seq<(Seq<char>, N)>,
    value: N,
) -> bool {
    &&& results.len() == combos.len()
    &&& forall|j: int|
        0 <= j < results.len() ==> (#[trigger] results[j]).0@ == combos[j]@ && made_summary(
            train,
            cfg,
            files,
            builder,
            strategy,
            combos[j]@,
            results[j].1,
        )
    &&& ({
        let at = best_of(scores(results, metric)).0;
        &&& 0 <= at < results.len()
        &&& chosen == combos[at]@
        &&& value == metric.of(results[at].1)
    })
}

/// The combination of a fold is the best of all on some events.
pub open spec fn was_chosen<N: Analytic, B: StrategyBuilder<N>>(
    train: Seq<EventView<N>>,
    cfg: BacktestConfig<N>,
    files: FilesView,
    builder: B,
    strategy: Seq<char>,
    combos: Seq<Combo<N>>,
    metric: Metric,
    f: FoldResult<N>,
) -> bool {
    exists|results: Seq<(Combo<N>, Summary<N>)>| #[trigger]
        chosen_on(
            train,
            cfg,
            files,
            builder,
            strategy,
            combos,
            metric,
            results,
            f.chosen@,
            f.in_sample_metric,
        )
}

/// The results of a fold are those of a run over some events, with the combination of the fold.
pub open spec fn was_tried<N: Analytic, B: StrategyBuilder<N>>(
    test: Seq<EventView<N>>,
    cfg: BacktestConfig<N>,
    files: FilesView,
    builder: B,
    strategy: Seq<char>,
    metric: Metric,
    f: FoldResult<N>,
) -> bool {
    exists|tried: Summary<N>| #[trigger]
        made_summary(test, cfg, files, builder, strategy, f.chosen@, tried) && f.oos_metric == metric.of(tried) && f.oos_pnl
            == tried.pnl_total
}

/// A fold is what comes of choosing on one part and trying on the next.
pub open spec fn fold_done<N: Analytic, B: StrategyBuilder<N>>(
    events: Seq<EventView<N>>,
    cfg: BacktestConfig<N>,
    files: FilesView,
    builder: B,
    strategy: Seq<char>,
    combos: Seq<Combo<N>>,
    metric: Metric,
    folds: nat,
    i: nat,
    f: FoldResult<N>,
) -> bool {
    &&& f.fold == i
    &&& f.train_range.0 == part_start(events.len(), folds + 1, i)
    &&& f.train_range.1 == part_start(events.len(), folds + 1, i + 1)
    &&& f.test_range.0 == part_start(events.len(), folds + 1, i + 1)
    &&& f.test_range.1 == part_start(events.len(), folds + 1, i + 2)
    &&& was_chosen(part_of(events, folds, i), cfg, files, builder, strategy, combos, metric, f)
    &&& was_tried(part_of(events, folds, i + 1), cfg, files, builder, strategy, metric, f)
}

/// What is wrong with a walk before it starts, if anything.
pub open spec fn walk_flaw(events: nat, windows: nat) -> Option<(ErrorKind, Seq<char>)> {
    if windows == 0 {
        Some(bad("--windows must be >= 1 (it is the number of train/test folds)"@))
    } else if events < windows + 1 {
        Some(
            bad(
                "only "@ + decimal(events) + " events — need at least K+1="@ + decimal(windows + 1)
                    + " to form "@ + decimal(windows)
                    + " walk-forward folds (try fewer --windows)"@,
            ),
        )
    } else {
        None
    }
}

/// Checks that there are folds, and events for each.
pub fn check_walk(events: usize, windows: usize) -> (r: Result<(), Error>)
    requires
        windows < usize::MAX,
    ensures
        match r {
            Ok(_) => walk_flaw(events as nat, windows as nat) is None,
            Err(e) => walk_flaw(events as nat, windows as nat) == Some(e@),
        },
{
    if windows == 0 {
        return Err(
            fail("--windows must be >= 1 (it is the number of train/test folds)".to_owned()),
        );
    }
    if events < windows + 1 {
        let mut m = concat3(
            "only ",
            u64_text(events as u64).as_str(),
            " events — need at least K+1=",
        );
        m.append(u64_text((windows + 1) as u64).as_str());
        m.append(" to form ");
        m.append(u64_text(windows as u64).as_str());
        m.append(" walk-forward folds (try fewer --windows)");
        return Err(fail(m));
    }
    Ok(())
}

/// One fold: the best combination on the events of `train`, tried on those of `test`.
fn one_fold<N: Analytic, B: StrategyBuilder<N>>(
    events: &[MarketEvent<N>],
    cfg: &BacktestConfig<N>,
    files: &RunFiles,
    builder: &B,
    strategy: &str,
    combos: &[Combo<N>],
    metric: Metric,
    fold: usize,
    train: (usize, usize),
    test: (usize, usize),
) -> (r: Result<FoldResult<N>, Error>)
    requires
        train.0 <= train.1 <= events@.len(),
        test.0 <= test.1 <= events@.len(),
    ensures
        match r {
            Ok(f) => {
                let views = event_views(events@);
                &&& builder.knows(strategy@)
                &&& combos@.len() > 0
                &&& f.fold == fold
                &&& f.train_range == train
                &&& f.test_range == test
                &&& was_chosen(
                    views.subrange(train.0 as int, train.1 as int),
                    *cfg,
                    files@,
                    *builder,
                    strategy@,
                    combos@,
                    metric,
                    f,
                )
                &&& was_tried(
                    views.subrange(test.0 as int, test.1 as int),
                    *cfg,
                    files@,
                    *builder,
                    strategy@,
                    metric,
                    f,
                )
            },
            Err(e) => if combos@.len() == 0 {
                e@ == bad("fold "@ + decimal(fold as nat) + ": training produced no results"@)
            } else {
                !builder.knows(strategy@) && e@ == bad("unknown strategy "@ + strategy@)
            },
        },
{
    let ghost views = event_views(events@);
    let train_events = slice_subrange(events, train.0, train.1);
    proof {
        assert(event_views(train_events@) =~= views.subrange(train.0 as int, train.1 as int));
    }
    let results = match run_grid(train_events, cfg, files, builder, strategy, combos) {
        Some(v) => v,
        None => {
            return Err(fail(concat2("unknown strategy ", strategy)));
        },
    };
    let at: usize = match best_index(results.as_slice(), metric) {
        Some(i) => i,
        None => {
            return Err(
                fail(
                    concat3(
                        "fold ",
                        u64_text(fold as u64).as_str(),
                        ": training produced no results",
                    ),
                ),
            );
        },
    };
    proof {
        law_best_is_a_number(scores(results@, metric));
    }
    let chosen = results[at].0.copy();
    let in_sample_metric = metric.value(&results[at].1);
    proof {
        assert(chosen_on(
            views.subrange(train.0 as int, train.1 as int),
            *cfg,
            files@,
            *builder,
            strategy@,
            combos@,
            metric,
            results@,
            chosen@,
            in_sample_metric,
        ));
    }
    let test_events = slice_subrange(events, test.0, test.1);
    proof {
        assert(event_views(test_events@) =~= views.subrange(test.0 as int, test.1 as int));
    }
    let mut only: Vec<Combo<N>> = Vec::new();
    only.push(chosen.copy());
    let tried = match run_grid(test_events, cfg, files, builder, strategy, only.as_slice()) {
        Some(v) => v,
        None => {
            return Err(fail(concat2("unknown strategy ", strategy)));
        },
    };
    proof {
        assert(tried@[0].0@ == only@[0]@);
        assert(made_summary(
            views.subrange(test.0 as int, test.1 as int),
            *cfg,
            files@,
            *builder,
            strategy@,
            chosen@,
            tried@[0].1,
        ));
    }
    let f = FoldResult {
        fold,
        train_range: train,
        test_range: test,
        chosen,
        in_sample_metric,
        oos_metric: metric.value(&tried[0].1),
        oos_pnl: tried[0].1.pnl_total,
    };
    proof {
        assert(chosen_on(
            views.subrange(train.0 as int, train.1 as int),
            *cfg,
            files@,
            *builder,
            strategy@,
            combos@,
            metric,
            results@,
            f.chosen@,
            f.in_sample_metric,
        ));
        assert(was_chosen(
            views.subrange(train.0 as int, train.1 as int),
            *cfg,
            files@,
            *builder,
            strategy@,
            combos@,
            metric,
            f,
        ));
        assert(made_summary(
            views.subrange(test.0 as int, test.1 as int),
            *cfg,
            files@,
            *builder,
            strategy@,
            f.chosen@,
            tried@[0].1,
        ));
        assert(was_tried(
                    views.subrange(test.0 as int, test.1 as int),
                    *cfg,
                    files@,
                    *builder,
                    strategy@,
                    metric,
                    f,
                ));
        assert(builder.knows(strategy@));
        assert(combos@.len() > 0);
    }
    Ok(f)
}

/// Walks forward: the timeline is cut into one part more than there are folds; each fold chooses
/// its parameters on a part and tries them on the next.
pub fn walk_forward<N: Analytic, B: StrategyBuilder<N>>(
    events: &[MarketEvent<N>],
    cfg: &BacktestConfig<N>,
    files: &RunFiles,
    builder: &B,
    strategy: &str,
    combos: &[Combo<N>],
    metric: Metric,
    windows: usize,
) -> (r: Result<Vec<FoldResult<N>>, Error>)
    requires
        windows < usize::MAX,
    ensures
        match r {
            Ok(folds) => {
                &&& walk_flaw(events@.len(), windows as nat) is None
                &&& builder.knows(strategy@)
                &&& combos@.len() > 0
                &&& folds@.len() == windows
                &&& forall|i: int|
                    0 <= i < folds@.len() ==> #[trigger] fold_done(
                        event_views(events@),
                        *cfg,
                        files@,
                        *builder,
                        strategy@,
                        combos@,
                        metric,
                        windows as nat,
                        i as nat,
                        folds@[i],
                    )
            },
            Err(e) => match walk_flaw(events@.len(), windows as nat) {
                Some(flaw) => e@ == flaw,
                None => if combos@.len() == 0 {
                    e@ == bad("fold 0: training produced no results"@)
                } else {
                    !builder.knows(strategy@) && e@ == bad("unknown strategy "@ + strategy@)
                },
            },
        },
{
    if let Err(e) = check_walk(events.len(), windows) {
        return Err(e);
    }
    let ghost n = events@.len();
    let segments = split_segments(events.len(), windows + 1);
    let mut folds: Vec<FoldResult<N>> = Vec::new();
    let mut i: usize = 0;
    while i < windows
        invariant
            i <= windows,
            windows < usize::MAX,
            n == events@.len(),
            walk_flaw(n, windows as nat) is None,
            windows > 0,
            i > 0 ==> builder.knows(strategy@) && combos@.len() > 0,
            segments@.len() == windows + 1,
            forall|j: int|
                0 <= j < segments@.len() ==> (#[trigger] segments@[j]).0 == part_start(
                    n,
                    (windows + 1) as nat,
                    j as nat,
                ) && segments@[j].1 == part_start(n, (windows + 1) as nat, (j + 1) as nat),
            folds@.len() == i,
            forall|j: int|
                0 <= j < i ==> #[trigger] fold_done(
                    event_views(events@),
                    *cfg,
                    files@,
                    *builder,
                    strategy@,
                    combos@,
                    metric,
                    windows as nat,
                    j as nat,
                    folds@[j],
                ),
        decreases windows - i,
    {
        let train: (usize, usize) = segments[i];
        let test: (usize, usize) = segments[i + 1];
        proof {
            law_parts_tile(n, (windows + 1) as nat, i as nat);
            law_parts_tile(n, (windows + 1) as nat, (i + 1) as nat);
        }
        match one_fold(events, cfg, files, builder, strategy, combos, metric, i, train, test) {
            Ok(f) => {
                let ghost views = event_views(events@);
                let ghost before = folds@;
                proof {
                    assert(segments@[i as int] == train);
                    assert(segments@[i + 1] == test);
                    assert(views.subrange(train.0 as int, train.1 as int) == part_of(
                        views,
                        windows as nat,
                        i as nat,
                    ));
                    assert(views.subrange(test.0 as int, test.1 as int) == part_of(
                        views,
                        windows as nat,
                        (i + 1) as nat,
                    ));
                    assert(fold_done(
                        views,
                        *cfg,
                        files@,
                        *builder,
                        strategy@,
                        combos@,
                        metric,
                        windows as nat,
                        i as nat,
                        f,
                    ));
                }
                folds.push(f);
                proof {
                    assert forall|j: int| 0 <= j < i + 1 implies #[trigger] fold_done(
                        views,
                        *cfg,
                        files@,
                        *builder,
                        strategy@,
                        combos@,
                        metric,
                        windows as nat,
                        j as nat,
                        folds@[j],
                    ) by {
                        if j < i {
                            assert(folds@[j] == before[j]);
                        }
                    }
                }
            },
            Err(e) => {
                proof {
                    if combos@.len() == 0 {
                        reveal_strlit("fold ");
                        reveal_strlit(": training produced no results");
                        reveal_strlit("fold 0: training produced no results");
                        assert(i == 0);
                        assert(e@.1 =~= "fold 0: training produced no results"@);
                    }
                }
                return Err(e);
            },
        }
        i += 1;
    }
    Ok(folds)
}

/// No fold looks ahead: what it is tried on begins where what it was chosen on ends, and both hold
/// events.
pub proof fn law_folds_do_not_look_ahead<N: Analytic, B: StrategyBuilder<N>>(
    events: Seq<EventView<N>>,
    cfg: BacktestConfig<N>,
    files: FilesView,
    builder: B,
    strategy: Seq<char>,
    combos: Seq<Combo<N>>,
    metric: Metric,
    folds: nat,
    i: nat,
    f: FoldResult<N>,
)
    requires
        fold_done(events, cfg, files, builder, strategy, combos, metric, folds, i, f),
        i < folds,
        walk_flaw(events.len(), folds) is None,
    ensures
        f.train_range.0 < f.train_range.1,
        f.train_range.1 == f.test_range.0,
        f.test_range.0 < f.test_range.1 <= events.len(),
{
    let parts = folds + 1;
    law_parts_tile(events.len(), parts, i);
    law_parts_tile(events.len(), parts, i + 1);
    vstd::arithmetic::div_mod::lemma_div_non_zero(events.len() as int, parts as int);
}

/// What a fold is tried on is what the next one is chosen on.
pub proof fn law_folds_roll_on<N: Analytic, B: StrategyBuilder<N>>(
    events: Seq<EventView<N>>,
    cfg: BacktestConfig<N>,
    files: FilesView,
    builder: B,
    strategy: Seq<char>,
    combos: Seq<Combo<N>>,
    metric: Metric,
    folds: nat,
    i: nat,
    f: FoldResult<N>,
    next: FoldResult<N>,
)
    requires
        fold_done(events, cfg, files, builder, strategy, combos, metric, folds, i, f),
        fold_done(events, cfg, files, builder, strategy, combos, metric, folds, i + 1, next),
    ensures
        next.train_range == f.test_range,
{
}

// ---- what the folds add up to ---------------------------------------------------------------

/// The sum of some numbers, from the first to the last.
pub open spec fn sum_of<N: Number>(values: Seq<N>) -> N
    decreases values.len(),
{
    if values.len() == 0 {
        N::integer(0)
    } else {
        sum_of(values.drop_last()).sum(values.last())
    }
}

/// What each fold has earned on what it was tried on.
pub open spec fn fold_pnls<N>(folds: Seq<FoldResult<N>>) -> Seq<N> {
    folds.map_values(|f: FoldResult<N>| f.oos_pnl)
}

/// What each fold came to by the metric, on what it was tried on.
pub open spec fn fold_metrics<N>(folds: Seq<FoldResult<N>>) -> Seq<N> {
    folds.map_values(|f: FoldResult<N>| f.oos_metric)
}

/// What all folds together have earned, and the mean of their metric: 0 where there are none.
pub open spec fn aggregate_of<N: Number>(folds: Seq<FoldResult<N>>) -> (N, N) {
    (
        sum_of(fold_pnls(folds)),
        if folds.len() == 0 {
            N::integer(0)
        } else {
            sum_of(fold_metrics(folds)).quotient(tally::<N>(folds.len()))
        },
    )
}

/// Adds folds up: what they have earned together, and the mean of their metric.
pub fn aggregate<N: Number>(folds: &Vec<FoldResult<N>>) -> (r: (N, N))
    ensures
        r == aggregate_of(folds@),
{
    let ghost pnls = fold_pnls(folds@);
    let ghost metrics = fold_metrics(folds@);
    let n: usize = folds.len();
    let mut pnl = N::from_int(0);
    let mut total = N::from_int(0);
    let mut i: usize = 0;
    while i < n
        invariant
            i <= n,
            n == folds@.len(),
            pnls == fold_pnls(folds@),
            metrics == fold_metrics(folds@),
            pnl == sum_of(pnls.take(i as int)),
            total == sum_of(metrics.take(i as int)),
        decreases n - i,
    {
        proof {
            assert(pnls.take(i + 1).drop_last() =~= pnls.take(i as int));
            assert(metrics.take(i + 1).drop_last() =~= metrics.take(i as int));
        }
        pnl = pnl.plus(folds[i].oos_pnl);
        total = total.plus(folds[i].oos_metric);
        i += 1;
    }
    proof {
        assert(pnls.take(n as int) =~= pnls);
        assert(metrics.take(n as int) =~= metrics);
    }
    let mean = if n == 0 {
        N::from_int(0)
    } else {
        total.over(count::<N>(n))
    };
    (pnl, mean)
}

/// A range as it is shown.
pub open spec fn range_text(r: (usize, usize)) -> Seq<char> {
    decimal(r.0 as nat) + ".."@ + decimal(r.1 as nat)
}

/// The line of a fold.
pub open spec fn fold_line<N: Number>(f: FoldResult<N>) -> Seq<char> {
    "  "@ + right(decimal((f.fold + 1) as nat), 4) + "  "@ + left(
        cut(joined(settings_of(f.chosen@), ","@), 30),
        30,
    ) + "  "@ + right(range_text(f.train_range), 14) + "  "@ + right(range_text(f.test_range), 14)
        + "  "@ + right(metric_text(f.in_sample_metric), 12) + "  "@ + right(
        metric_text(f.oos_metric),
        14,
    )
}

/// The head of the table of folds.
pub open spec fn fold_head() -> Seq<char> {
    "  "@ + right("fold"@, 4) + "  "@ + left("chosen params"@, 30) + "  "@ + right(
        "train events"@,
        14,
    ) + "  "@ + right("test events"@, 14) + "  "@ + right("in-sample"@, 12) + "  "@ + right(
        "out-of-sample"@,
        14,
    )
}

/// The table of folds, and what they add up to.
pub open spec fn fold_table<N: Number>(folds: Seq<FoldResult<N>>, metric: Metric) -> Seq<Seq<char>> {
    let (pnl, mean) = aggregate_of(folds);
    (Seq::<Seq<char>>::empty().push(""@).push(
        "Walk-forward folds (train = segment i, test = segment i+1; metric = "@ + metric.title()
            + "):"@,
    ).push(fold_head()) + folds.map_values(|f: FoldResult<N>| fold_line(f))).push(""@).push(
        "AGGREGATE out-of-sample: combined OOS pnl_total = "@ + metric_text(pnl) + ", mean OOS "@
            + metric.title() + " = "@ + metric_text(mean) + "  ("@ + decimal(folds.len())
            + " folds)"@,
    )
}

fn show_range(r: (usize, usize)) -> (s: String)
    ensures
        s@ == range_text(r),
{
    concat3(u64_text(r.0 as u64).as_str(), "..", u64_text(r.1 as u64).as_str())
}

fn show_fold<N: Number>(f: &FoldResult<N>) -> (r: String)
    requires
        f.fold < usize::MAX,
    ensures
        r@ == fold_line(*f),
{
    let mut s = concat2("  ", pad_left(u64_text((f.fold + 1) as u64).as_str(), 4).as_str());
    s.append("  ");
    let label = truncate(f.chosen.label().as_str(), 30);
    s.append(pad_right(label.as_str(), 30).as_str());
    s.append("  ");
    s.append(pad_left(show_range(f.train_range).as_str(), 14).as_str());
    s.append("  ");
    s.append(pad_left(show_range(f.test_range).as_str(), 14).as_str());
    s.append("  ");
    s.append(pad_left(fmt_metric(f.in_sample_metric).as_str(), 12).as_str());
    s.append("  ");
    s.append(pad_left(fmt_metric(f.oos_metric).as_str(), 14).as_str());
    s
}

fn show_fold_head() -> (r: String)
    ensures
        r@ == fold_head(),
{
    let mut s = concat2("  ", pad_left("fold", 4).as_str());
    s.append("  ");
    s.append(pad_right("chosen params", 30).as_str());
    s.append("  ");
    s.append(pad_left("train events", 14).as_str());
    s.append("  ");
    s.append(pad_left("test events", 14).as_str());
    s.append("  ");
    s.append(pad_left("in-sample", 12).as_str());
    s.append("  ");
    s.append(pad_left("out-of-sample", 14).as_str());
    s
}

/// Shows the folds of a walk and what they add up to.
pub fn walk_table<N: Number>(folds: &Vec<FoldResult<N>>, metric: Metric) -> (r: Vec<String>)
    requires
        forall|i: int| 0 <= i < folds@.len() ==> (#[trigger] folds@[i]).fold < usize::MAX,
    ensures
        texts(r@) == fold_table(folds@, metric),
{
    let ghost due = folds@.map_values(|f: FoldResult<N>| fold_line(f));
    let n: usize = folds.len();
    let mut out: Vec<String> = Vec::new();
    proof {
        assert(texts(out@) =~= Seq::<Seq<char>>::empty());
    }
    say(&mut out, "".to_owned());
    say(
        &mut out,
        concat3(
            "Walk-forward folds (train = segment i, test = segment i+1; metric = ",
            metric.name(),
            "):",
        ),
    );
    say(&mut out, show_fold_head());
    let ghost head = texts(out@);
    let mut i: usize = 0;
    while i < n
        invariant
            i <= n,
            n == folds@.len(),
            due == folds@.map_values(|f: FoldResult<N>| fold_line(f)),
            forall|i: int| 0 <= i < folds@.len() ==> (#[trigger] folds@[i]).fold < usize::MAX,
            texts(out@) =~= head + due.take(i as int),
        decreases n - i,
    {
        say(&mut out, show_fold(&folds[i]));
        proof {
            assert(due.take(i + 1) =~= due.take(i as int).push(due[i as int]));
        }
        i += 1;
    }
    proof {
        assert(due.take(n as int) =~= due);
    }
    let (pnl, mean): (N, N) = aggregate(folds);
    say(&mut out, "".to_owned());
    let mut s = concat3(
        "AGGREGATE out-of-sample: combined OOS pnl_total = ",
        fmt_metric(pnl).as_str(),
        ", mean OOS ",
    );
    s.append(metric.name());
    s.append(" = ");
    s.append(fmt_metric(mean).as_str());
    s.append("  (");
    s.append(u64_text(n as u64).as_str());
    s.append(" folds)");
    say(&mut out, s);
    out
}

/// The line of a fold in the file of a walk. Its parameters share a cell.
pub open spec fn fold_record<N: Number>(f: FoldResult<N>) -> Seq<char> {
    decimal((f.fold + 1) as nat) + ","@ + joined(settings_of(f.chosen@), ";"@) + ","@ + decimal(
        f.train_range.0 as nat,
    ) + ","@ + decimal(f.train_range.1 as nat) + ","@ + decimal(f.test_range.0 as nat) + ","@
        + decimal(f.test_range.1 as nat) + ","@ + cell_text(f.in_sample_metric) + ","@ + cell_text(
        f.oos_metric,
    ) + ","@ + cell_text(f.oos_pnl) + "\n"@
}

/// The lines of the first folds.
pub open spec fn fold_records<N: Number>(folds: Seq<FoldResult<N>>) -> Seq<char>
    decreases folds.len(),
{
    if folds.len() == 0 {
        Seq::empty()
    } else {
        fold_records(folds.drop_last()) + fold_record(folds.last())
    }
}

/// The file of a walk.
pub open spec fn walk_file<N: Number>(folds: Seq<FoldResult<N>>, metric: Metric) -> Seq<char> {
    "fold,chosen_params,train_start,train_end,test_start,test_end,in_sample_"@ + metric.title()
        + ",oos_"@ + metric.title() + ",oos_pnl\n"@ + fold_records(folds)
}

fn write_fold<N: Number>(f: &FoldResult<N>) -> (r: String)
    requires
        f.fold < usize::MAX,
    ensures
        r@ == fold_record(*f),
{
    let mut s = u64_text((f.fold + 1) as u64);
    s.append(",");
    s.append(f.chosen.written(";").as_str());
    s.append(",");
    s.append(u64_text(f.train_range.0 as u64).as_str());
    s.append(",");
    s.append(u64_text(f.train_range.1 as u64).as_str());
    s.append(",");
    s.append(u64_text(f.test_range.0 as u64).as_str());
    s.append(",");
    s.append(u64_text(f.test_range.1 as u64).as_str());
    s.append(",");
    s.append(fmt_csv(f.in_sample_metric).as_str());
    s.append(",");
    s.append(fmt_csv(f.oos_metric).as_str());
    s.append(",");
    s.append(fmt_csv(f.oos_pnl).as_str());
    s.append("\n");
    s
}

/// Writes the file of a walk: a line for each fold.
pub fn walk_forward_csv<N: Number>(folds: &Vec<FoldResult<N>>, metric: Metric) -> (r: String)
    requires
        forall|i: int| 0 <= i < folds@.len() ==> (#[trigger] folds@[i]).fold < usize::MAX,
    ensures
        r@ == walk_file(folds@, metric),
{
    let mut text = concat3(
        "fold,chosen_params,train_start,train_end,test_start,test_end,in_sample_",
        metric.name(),
        ",oos_",
    );
    text.append(metric.name());
    text.append(",oos_pnl\n");
    let ghost head = text@;
    let n: usize = folds.len();
    let mut i: usize = 0;
    proof {
        assert(folds@.take(0) =~= Seq::<FoldResult<N>>::empty());
        assert(head + Seq::<char>::empty() =~= head);
    }
    while i < n
        invariant
            i <= n,
            n == folds@.len(),
            forall|i: int| 0 <= i < folds@.len() ==> (#[trigger] folds@[i]).fold < usize::MAX,
            text@ == head + fold_records(folds@.take(i as int)),
        decreases n - i,
    {
        let line = write_fold(&folds[i]);
        let ghost before = fold_records(folds@.take(i as int));
        text.append(line.as_str());
        proof {
            assert(folds@.take(i + 1).drop_last() =~= folds@.take(i as int));
            assert(head + before + line@ =~= head + (before + line@));
        }
        i += 1;
    }
    proof {
        assert(folds@.take(n as int) =~= folds@);
    }
    text
}

/// What the folds have earned together grows by what each of them earned, and the mean of their metric
/// is its sum over their count: with numbers of six decimals it misses by less than a millionth.
pub proof fn law_folds_add_up(folds: Seq<FoldResult<Fixed>>, f: FoldResult<Fixed>)
    requires
        folds.len() < 1_000_000_000_000,
        -LARGEST < aggregate_of(folds).0.units + f.oos_pnl.units < LARGEST,
        -LARGEST < sum_of(fold_metrics(folds.push(f))).units < LARGEST,
        -LARGEST < sum_of(fold_metrics(folds)).units + f.oos_metric.units < LARGEST,
    ensures
        ({
            let n = folds.len() as int + 1;
            let (earned, mean) = aggregate_of(folds.push(f));
            let sum = sum_of(fold_metrics(folds)).units + f.oos_metric.units;
            &&& earned.units == aggregate_of(folds).0.units + f.oos_pnl.units
            &&& sum >= 0 ==> mean.units * n <= sum < mean.units * n + n
            &&& sum <= 0 ==> mean.units * n - n < sum <= mean.units * n
        }),
        aggregate_of(Seq::<FoldResult<Fixed>>::empty()).0.units == 0,
        aggregate_of(Seq::<FoldResult<Fixed>>::empty()).1.units == 0,
        sum_of(fold_metrics(Seq::<FoldResult<Fixed>>::empty())).units == 0,
{
    let all = folds.push(f);
    assert(fold_pnls(all).drop_last() =~= fold_pnls(folds));
    assert(fold_pnls(all).last() == f.oos_pnl);
    assert(fold_metrics(all).drop_last() =~= fold_metrics(folds));
    assert(fold_metrics(all).last() == f.oos_metric);
    let sum = sum_of(fold_metrics(all));
    assert(sum.units == sum_of(fold_metrics(folds)).units + f.oos_metric.units);
    let n = folds.len() as int + 1;
    let c = tally::<Fixed>(all.len());
    assert(c.units == n * 1_000_000);
    let s = sum.units as int;
    lemma_cut(s * 1_000_000, n * 1_000_000);
    let q = cut_quotient(s * 1_000_000, n * 1_000_000);
    assert(-LARGEST < q < LARGEST) by (nonlinear_arith)
        requires
            s * 1_000_000 >= 0 ==> 0 <= q * (n * 1_000_000) <= s * 1_000_000,
            s * 1_000_000 <= 0 ==> s * 1_000_000 <= q * (n * 1_000_000) <= 0,
            n >= 1,
            -LARGEST < s < LARGEST,
    ;
    law_quotients_are_cut(sum, c);
    assert(q * (n * 1_000_000) == (q * n) * 1_000_000) by (nonlinear_arith);
}

} // verus!
