//! Sweeps: rankings, walks forward through time, and what they print.
use crate::cli::resolve::{bad, fail};
use crate::cli::show::{
    cell_text, cut, fmt_csv, fmt_metric, left, metric_text, pad_left, pad_right, right, truncate,
};
use crate::cli::summary::{percent, percent_text};
use crate::cli::tables::say;
use crate::error::Error;
use crate::exports::table_number;
use crate::number::Number;
use crate::optimize::{
    axis_views, best_index, best_of, fmt_num, is_number, law_best_is_a_number,
    law_nothing_is_better, scores, settings_of, AxisView, Combo, Metric,
    ParamAxis,
};
use crate::strmap::entry;
use crate::text::{concat2, concat3, decimal, decimal_int, i64_text, join, joined, texts, u64_text};
use crate::types::Summary;
use vstd::prelude::*;

verus! {

// ---- what a sweep needs ---------------------------------------------------------------------

/// Checks that there are events to sweep over.
pub fn check_sweep(events: usize) -> (r: Result<(), Error>)
    ensures
        match r {
            Ok(_) => events > 0,
            Err(e) => events == 0 && e@ == bad(
                "no events matched the source/instrument/date filters — nothing to optimize"@,
            ),
        },
{
    if events == 0 {
        return Err(
            fail(
                "no events matched the source/instrument/date filters — nothing to optimize".to_owned(),
            ),
        );
    }
    Ok(())
}

/// The place of the best result.
pub fn pick_best<N: Number>(results: &[(Combo<N>, Summary<N>)], metric: Metric) -> (r: Result<
    usize,
    Error,
>)
    ensures
        match r {
            Ok(i) => results@.len() > 0 && i == best_of(scores(results@, metric)).0,
            Err(e) => results@.len() == 0 && e@ == bad("optimization produced no results"@),
        },
{
    match best_index(results, metric) {
        Some(i) => Ok(i),
        None => Err(fail("optimization produced no results".to_owned())),
    }
}

// ---- rankings -------------------------------------------------------------------------------

/// The numbers are ordered as numbers should be: no two are below one another, and what lies
/// between two numbers is above the one or below the other.
pub open spec fn well_ordered<N: Number>(values: Seq<N>) -> bool {
    &&& forall|i: int, j: int|
        0 <= i < values.len() && 0 <= j < values.len() && (#[trigger] values[i]).below(
            #[trigger] values[j],
        ) ==> !values[j].below(values[i])
    &&& forall|i: int, j: int, k: int|
        0 <= i < values.len() && 0 <= j < values.len() && 0 <= k < values.len() && (
        #[trigger] values[i]).below(#[trigger] values[k]) ==> values[i].below(#[trigger] values[j])
            || values[j].below(values[k])
}

/// The places are those of all numbers, each once.
pub open spec fn all_places(order: Seq<usize>, n: nat) -> bool {
    &&& order.len() == n
    &&& order.no_duplicates()
    &&& forall|i: int| 0 <= i < order.len() ==> #[trigger] order[i] < n
}

/// The places go from the greatest number to the least; of equal ones the first comes first.
pub open spec fn descends<N: Number>(values: Seq<N>, order: Seq<usize>) -> bool {
    forall|i: int, j: int|
        0 <= i < j < order.len() ==> {
            let a = values[(#[trigger] order[i]) as int];
            let b = values[(#[trigger] order[j]) as int];
            !a.below(b) && (b.below(a) || order[i] < order[j])
        }
}

/// Ranks results by a metric, the best first. Where the metric is not a number of a result, the
/// ranking still holds every result once.
pub fn rank<N: Number>(results: &[(Combo<N>, Summary<N>)], metric: Metric) -> (order: Vec<usize>)
    ensures
        all_places(order@, results@.len()),
        well_ordered(scores(results@, metric)) ==> descends(scores(results@, metric), order@),
{
    let ghost values = scores(results@, metric);
    let n: usize = results.len();
    let mut order: Vec<usize> = Vec::new();
    let mut i: usize = 0;
    while i < n
        invariant
            i <= n,
            n == results@.len(),
            values == scores(results@, metric),
            all_places(order@, i as nat),
            well_ordered(values) ==> descends(values, order@),
        decreases n - i,
    {
        let v = metric.value(&results[i].1);
        let mut p: usize = order.len();
        proof {
            assert(v == values[i as int]);
        }
        while p > 0 && metric.value(&results[order[p - 1]].1).is_below(v)
            invariant
                p <= order@.len(),
                i < n,
                n == results@.len(),
                values == scores(results@, metric),
                all_places(order@, i as nat),
                v == values[i as int],
                forall|q: int|
                    p <= q < order@.len() ==> values[(#[trigger] order@[q]) as int].below(v),
            decreases p,
        {
            p -= 1;
        }
        let ghost before = order@;
        order.insert(p, i);
        proof {
            lemma_placed(values, before, i, p as int);
        }
        i += 1;
    }
    order
}

proof fn lemma_placed<N: Number>(values: Seq<N>, order: Seq<usize>, i: usize, p: int)
    requires
        i < values.len(),
        all_places(order, i as nat),
        0 <= p <= order.len(),
        forall|q: int|
            p <= q < order.len() ==> values[(#[trigger] order[q]) as int].below(values[i as int]),
        p > 0 ==> !values[order[p - 1] as int].below(values[i as int]),
        well_ordered(values) ==> descends(values, order),
    ensures
        all_places(order.insert(p, i), (i + 1) as nat),
        well_ordered(values) ==> descends(values, order.insert(p, i)),
{
    let now = order.insert(p, i);
    assert forall|a: int, b: int| 0 <= a < now.len() && 0 <= b < now.len() && a != b implies now[a]
        != now[b] by {
        let oa = if a < p {
            a
        } else {
            a - 1
        };
        let ob = if b < p {
            b
        } else {
            b - 1
        };
        if a != p && b != p {
            assert(order[oa] != order[ob]);
        }
    }
    if well_ordered(values) {
        assert forall|a: int, b: int| 0 <= a < b < now.len() implies {
            let x = values[(#[trigger] now[a]) as int];
            let y = values[(#[trigger] now[b]) as int];
            !x.below(y) && (y.below(x) || now[a] < now[b])
        } by {
            let v = values[i as int];
            if a == p {
                assert(now[b] == order[b - 1]);
                assert(values[order[b - 1] as int].below(v));
            } else if b == p {
                assert(now[a] == order[a]);
                let x = values[order[a] as int];
                if a < p - 1 {
                    let m = values[order[p - 1] as int];
                    assert(!x.below(m));
                    assert(!m.below(v));
                    assert(!x.below(v));
                }
            } else {
                let oa = if a < p {
                    a
                } else {
                    a - 1
                };
                let ob = if b < p {
                    b
                } else {
                    b - 1
                };
                assert(now[a] == order[oa]);
                assert(now[b] == order[ob]);
            }
        }
    }
}

/// The first of a ranking is the result that counts as the best, where all values are numbers and
/// are ordered as they should be.
pub proof fn law_first_ranked_is_best<N: Number>(values: Seq<N>, order: Seq<usize>)
    requires
        0 < values.len() <= usize::MAX,
        well_ordered(values),
        forall|i: int| 0 <= i < values.len() ==> is_number(#[trigger] values[i]),
        all_places(order, values.len()),
        descends(values, order),
    ensures
        order[0] == best_of(values).0,
{
    let at = best_of(values).0;
    law_best_is_a_number(values);
    lemma_place_found(order, values.len(), at as usize);
    let q = choose|q: int| 0 <= q < order.len() && order[q] == at as usize;
    if q > 0 {
        let first = order[0] as int;
        assert(0 <= 0 < q < order.len());
        assert(order[q] as int == at);
        assert(!values[first].below(values[at]));
        law_nothing_is_better(values, first);
    }
}

proof fn lemma_place_found(order: Seq<usize>, n: nat, at: usize)
    requires
        all_places(order, n),
        at < n <= usize::MAX,
    ensures
        exists|q: int| 0 <= q < order.len() && order[q] == at,
{
    if forall|q: int| 0 <= q < order.len() ==> order[q] != at {
        let s = order.to_set();
        let below = Set::new(|u: usize| u < n && u != at);
        order.unique_seq_to_set();
        assert(s.subset_of(below)) by {
            assert forall|u: usize| s.contains(u) implies below.contains(u) by {
                let q = choose|q: int| 0 <= q < order.len() && order[q] == u;
                assert(order[q] == u);
            }
        }
        lemma_count_below(n, at);
        vstd::set_lib::lemma_len_subset(s, below);
    }
}

spec fn first_places(n: nat) -> Set<usize> {
    Set::new(|u: usize| u < n)
}

proof fn lemma_first_places(n: nat)
    requires
        n <= usize::MAX as nat + 1,
    ensures
        first_places(n).finite(),
        first_places(n).len() == n,
    decreases n,
{
    if n == 0 {
        assert(first_places(0) =~= Set::empty());
    } else {
        lemma_first_places((n - 1) as nat);
        assert(first_places(n) =~= first_places((n - 1) as nat).insert((n - 1) as usize));
    }
}

proof fn lemma_count_below(n: nat, at: usize)
    requires
        at < n,
        n <= usize::MAX as nat + 1,
    ensures
        Set::new(|u: usize| u < n && u != at).finite(),
        Set::new(|u: usize| u < n && u != at).len() == n - 1,
{
    lemma_first_places(n);
    assert(Set::new(|u: usize| u < n && u != at) =~= first_places(n).remove(at));
}

// ---- the table of a ranking -----------------------------------------------------------------

/// The most rows of a ranking that are shown.
pub const SHOWN_RANKS: usize = 25;

/// The head of the table of a ranking.
pub open spec fn rank_head(metric: Seq<char>) -> Seq<char> {
    "  "@ + right("rank"@, 4) + "  "@ + left("params"@, 32) + "  "@ + right("pnl_total"@, 12) + "  "@
        + right("sharpe"@, 10) + "  "@ + right("win_rate"@, 9) + "  "@ + right("p.factor"@, 9)
        + "  "@ + right(metric, 12)
}

/// A row of the table of a ranking.
pub open spec fn rank_row<N: Number>(
    place: nat,
    params: Seq<(Seq<char>, N)>,
    s: Summary<N>,
    metric: Metric,
) -> Seq<char> {
    "  "@ + right(decimal(place), 4) + "  "@ + left(
        cut(joined(settings_of(params), ","@), 32),
        32,
    ) + "  "@ + right(metric_text(s.pnl_total), 12) + "  "@ + right(s.sharpe.shown_fixed(3), 10)
        + "  "@ + right(percent(s.win_rate, 1), 8) + "%  "@ + right(s.profit_factor.shown_fixed(3), 9)
        + "  "@ + right(metric_text(metric.of(s)), 12)
}

/// The rows of the table of a ranking.
pub open spec fn rank_rows<N: Number>(
    results: Seq<(Combo<N>, Summary<N>)>,
    order: Seq<usize>,
    metric: Metric,
) -> Seq<Seq<char>> {
    Seq::new(
        if order.len() < SHOWN_RANKS {
            order.len()
        } else {
            SHOWN_RANKS as nat
        },
        |i: int|
            rank_row(
                (i + 1) as nat,
                results[order[i] as int].0@,
                results[order[i] as int].1,
                metric,
            ),
    )
}

/// The table of a ranking.
pub open spec fn rank_table<N: Number>(
    results: Seq<(Combo<N>, Summary<N>)>,
    order: Seq<usize>,
    metric: Metric,
) -> Seq<Seq<char>> {
    let rows = rank_rows(results, order, metric);
    let lines = Seq::<Seq<char>>::empty().push(""@).push(
        "Ranked results (top "@ + decimal(rows.len()) + " of "@ + decimal(order.len()) + ", by "@
            + metric.title() + "):"@,
    ).push(rank_head(metric.title())) + rows;
    if order.len() > SHOWN_RANKS {
        lines.push(
            "  ... ("@ + decimal((order.len() - SHOWN_RANKS) as nat)
                + " more rows in optimize_results.csv if --out-dir set)"@,
        )
    } else {
        lines
    }
}

fn show_rank_head(metric: &str) -> (r: String)
    ensures
        r@ == rank_head(metric@),
{
    let mut s = concat2("  ", pad_left("rank", 4).as_str());
    s.append("  ");
    s.append(pad_right("params", 32).as_str());
    s.append("  ");
    s.append(pad_left("pnl_total", 12).as_str());
    s.append("  ");
    s.append(pad_left("sharpe", 10).as_str());
    s.append("  ");
    s.append(pad_left("win_rate", 9).as_str());
    s.append("  ");
    s.append(pad_left("p.factor", 9).as_str());
    s.append("  ");
    s.append(pad_left(metric, 12).as_str());
    s
}

fn show_rank<N: Number>(place: u64, combo: &Combo<N>, s: &Summary<N>, metric: Metric) -> (r: String)
    ensures
        r@ == rank_row(place as nat, combo@, *s, metric),
{
    let mut t = concat2("  ", pad_left(u64_text(place).as_str(), 4).as_str());
    t.append("  ");
    let label = truncate(combo.label().as_str(), 32);
    t.append(pad_right(label.as_str(), 32).as_str());
    t.append("  ");
    t.append(pad_left(fmt_metric(s.pnl_total).as_str(), 12).as_str());
    t.append("  ");
    t.append(pad_left(s.sharpe.fixed(3).as_str(), 10).as_str());
    t.append("  ");
    t.append(pad_left(percent_text(s.win_rate, 1).as_str(), 8).as_str());
    t.append("%  ");
    t.append(pad_left(s.profit_factor.fixed(3).as_str(), 9).as_str());
    t.append("  ");
    t.append(pad_left(fmt_metric(metric.value(s)).as_str(), 12).as_str());
    t
}

/// Shows a ranking: its first rows, and how many more there are.
pub fn optimize_table<N: Number>(
    results: &[(Combo<N>, Summary<N>)],
    order: &Vec<usize>,
    metric: Metric,
) -> (r: Vec<String>)
    requires
        forall|i: int| 0 <= i < order@.len() ==> #[trigger] order@[i] < results@.len(),
    ensures
        texts(r@) == rank_table(results@, order@, metric),
{
    let ghost rows = rank_rows(results@, order@, metric);
    let total: usize = order.len();
    let n: usize = if total < SHOWN_RANKS {
        total
    } else {
        SHOWN_RANKS
    };
    let mut out: Vec<String> = Vec::new();
    proof {
        assert(texts(out@) =~= Seq::<Seq<char>>::empty());
    }
    say(&mut out, "".to_owned());
    let mut s = concat3("Ranked results (top ", u64_text(n as u64).as_str(), " of ");
    s.append(u64_text(total as u64).as_str());
    s.append(", by ");
    s.append(metric.name());
    s.append("):");
    say(&mut out, s);
    say(&mut out, show_rank_head(metric.name()));
    let ghost head = texts(out@);
    let mut i: usize = 0;
    while i < n
        invariant
            i <= n,
            n <= SHOWN_RANKS,
            n == rows.len(),
            n <= order@.len(),
            rows == rank_rows(results@, order@, metric),
            forall|i: int| 0 <= i < order@.len() ==> #[trigger] order@[i] < results@.len(),
            texts(out@) =~= head + rows.take(i as int),
        decreases n - i,
    {
        let at: usize = order[i];
        let r = &results[at];
        say(&mut out, show_rank((i + 1) as u64, &r.0, &r.1, metric));
        proof {
            assert(rows.take(i + 1) =~= rows.take(i as int).push(rows[i as int]));
        }
        i += 1;
    }
    proof {
        assert(rows.take(n as int) =~= rows);
    }
    if total > SHOWN_RANKS {
        say(
            &mut out,
            concat3(
                "  ... (",
                u64_text((total - SHOWN_RANKS) as u64).as_str(),
                " more rows in optimize_results.csv if --out-dir set)",
            ),
        );
    }
    out
}

/// What is told of the best result.
pub open spec fn best_line<N: Number>(
    params: Seq<(Seq<char>, N)>,
    s: Summary<N>,
    metric: Metric,
) -> Seq<char> {
    "BEST by "@ + metric.title() + ": "@ + joined(settings_of(params), ","@) + "  ->  "@
        + metric.title() + " = "@ + metric_text(metric.of(s)) + "  (pnl_total="@ + metric_text(
        s.pnl_total,
    ) + ", sharpe="@ + s.sharpe.shown_fixed(3) + ", win_rate="@ + percent(s.win_rate, 1)
        + "%, ending_balance="@ + metric_text(s.ending_balance) + ")"@
}

/// Tells of the best result.
pub fn describe_best<N: Number>(combo: &Combo<N>, s: &Summary<N>, metric: Metric) -> (r: String)
    ensures
        r@ == best_line(combo@, *s, metric),
{
    let mut t = concat3("BEST by ", metric.name(), ": ");
    t.append(combo.label().as_str());
    t.append("  ->  ");
    t.append(metric.name());
    t.append(" = ");
    t.append(fmt_metric(metric.value(s)).as_str());
    t.append("  (pnl_total=");
    t.append(fmt_metric(s.pnl_total).as_str());
    t.append(", sharpe=");
    t.append(s.sharpe.fixed(3).as_str());
    t.append(", win_rate=");
    t.append(percent_text(s.win_rate, 1).as_str());
    t.append("%, ending_balance=");
    t.append(fmt_metric(s.ending_balance).as_str());
    t.append(")");
    t
}

// ---- the file of a sweep --------------------------------------------------------------------

/// The columns behind those of the parameters.
pub const METRIC_COLUMNS: &'static str = "pnl_total,pnl_pct,ending_balance,sharpe,sortino,calmar_ratio,win_rate,profit_factor,expectancy,max_drawdown_pct,num_trades,num_fills,total_fees";

/// The names of some axes.
pub open spec fn axis_names<N>(axes: Seq<AxisView<N>>) -> Seq<Seq<char>> {
    axes.map_values(|a: AxisView<N>| a.name)
}

/// The values that a combination has on some axes.
pub open spec fn axis_cells<N: Number>(
    axes: Seq<AxisView<N>>,
    params: Seq<(Seq<char>, N)>,
) -> Seq<Seq<char>> {
    axes.map_values(
        |a: AxisView<N>|
            match entry(params, a.name) {
                Some(v) => table_number(v),
                None => Seq::empty(),
            },
    )
}

/// What is written of a result behind its parameters.
pub open spec fn metric_cells<N: Number>(s: Summary<N>) -> Seq<Seq<char>> {
    seq![
        cell_text(s.pnl_total),
        cell_text(s.pnl_pct),
        cell_text(s.ending_balance),
        cell_text(s.sharpe),
        cell_text(s.sortino),
        cell_text(s.calmar_ratio),
        cell_text(s.win_rate),
        cell_text(s.profit_factor),
        cell_text(s.expectancy),
        cell_text(s.max_drawdown_pct),
        decimal_int(s.num_trades as int),
        decimal_int(s.num_fills as int),
        cell_text(s.total_fees),
    ]
}

/// The lines of the first results.
pub open spec fn result_lines<N: Number>(
    results: Seq<(Combo<N>, Summary<N>)>,
    axes: Seq<AxisView<N>>,
) -> Seq<char>
    decreases results.len(),
{
    if results.len() == 0 {
        Seq::empty()
    } else {
        let r = results.last();
        result_lines(results.drop_last(), axes) + joined(
            axis_cells(axes, r.0@) + metric_cells(r.1),
            ","@,
        ) + "\n"@
    }
}

/// The file of a sweep: a column for each axis and for each metric, a line for each result.
pub open spec fn sweep_file<N: Number>(
    results: Seq<(Combo<N>, Summary<N>)>,
    axes: Seq<AxisView<N>>,
) -> Seq<char> {
    joined(axis_names(axes).push(METRIC_COLUMNS@), ","@) + "\n"@ + result_lines(results, axes)
}

fn name_axes<N: Number>(axes: &[ParamAxis<N>]) -> (r: Vec<String>)
    ensures
        texts(r@) == axis_names(axis_views(axes@)),
{
    let mut out: Vec<String> = Vec::new();
    let n: usize = axes.len();
    let mut i: usize = 0;
    while i < n
        invariant
            i <= n,
            n == axes@.len(),
            out@.len() == i,
            forall|j: int| 0 <= j < i ==> (#[trigger] out@[j])@ == axes@[j].name@,
        decreases n - i,
    {
        out.push(axes[i].name.clone());
        i += 1;
    }
    proof {
        assert(texts(out@) =~= axis_names(axis_views(axes@)));
    }
    out
}

fn fill_axes<N: Number>(axes: &[ParamAxis<N>], combo: &Combo<N>) -> (r: Vec<String>)
    ensures
        texts(r@) == axis_cells(axis_views(axes@), combo@),
{
    let ghost due = axis_cells(axis_views(axes@), combo@);
    let mut out: Vec<String> = Vec::new();
    let n: usize = axes.len();
    let mut i: usize = 0;
    while i < n
        invariant
            i <= n,
            n == axes@.len(),
            out@.len() == i,
            due == axis_cells(axis_views(axes@), combo@),
            forall|j: int| 0 <= j < i ==> (#[trigger] out@[j])@ == due[j],
        decreases n - i,
    {
        let cell = match combo.params.get(axes[i].name.as_str()) {
            Some(v) => fmt_num(*v),
            None => String::new(),
        };
        proof {
            assert(axis_views(axes@)[i as int].name == axes@[i as int].name@);
            assert(cell@ =~= due[i as int]);
        }
        out.push(cell);
        i += 1;
    }
    proof {
        assert(texts(out@) =~= due);
    }
    out
}

fn fill_metrics<N: Number>(s: &Summary<N>) -> (r: Vec<String>)
    ensures
        texts(r@) == metric_cells(*s),
{
    let r = vec![
        fmt_csv(s.pnl_total),
        fmt_csv(s.pnl_pct),
        fmt_csv(s.ending_balance),
        fmt_csv(s.sharpe),
        fmt_csv(s.sortino),
        fmt_csv(s.calmar_ratio),
        fmt_csv(s.win_rate),
        fmt_csv(s.profit_factor),
        fmt_csv(s.expectancy),
        fmt_csv(s.max_drawdown_pct),
        i64_text(s.num_trades),
        i64_text(s.num_fills),
        fmt_csv(s.total_fees),
    ];
    proof {
        assert(texts(r@) =~= metric_cells(*s));
    }
    r
}

/// Writes the file of a sweep.
pub fn optimize_csv<N: Number>(
    results: &[(Combo<N>, Summary<N>)],
    axes: &[ParamAxis<N>],
) -> (r: String)
    ensures
        r@ == sweep_file(results@, axis_views(axes@)),
{
    let mut names = name_axes(axes);
    say(&mut names, METRIC_COLUMNS.to_owned());
    let mut text = join(&names, ",");
    text.append("\n");
    let ghost head = text@;
    let n: usize = results.len();
    let mut i: usize = 0;
    proof {
        assert(results@.take(0) =~= Seq::<(Combo<N>, Summary<N>)>::empty());
        assert(head + Seq::<char>::empty() =~= head);
    }
    while i < n
        invariant
            i <= n,
            n == results@.len(),
            text@ == head + result_lines(results@.take(i as int), axis_views(axes@)),
        decreases n - i,
    {
        let r = &results[i];
        let mut cells = fill_axes(axes, &r.0);
        let mut more = fill_metrics(&r.1);
        let ghost (left_cells, right_cells) = (cells@, more@);
        cells.append(&mut more);
        proof {
            assert(texts(cells@) =~= texts(left_cells) + texts(right_cells));
        }
        let line = join(&cells, ",");
        let ghost before = result_lines(results@.take(i as int), axis_views(axes@));
        text.append(line.as_str());
        text.append("\n");
        proof {
            assert(results@.take(i + 1).drop_last() =~= results@.take(i as int));
            assert(results@.take(i + 1).last() == results@[i as int]);
            assert(head + before + line@ + "\n"@ =~= head + (before + line@ + "\n"@));
        }
        i += 1;
    }
    proof {
        assert(results@.take(n as int) =~= results@);
    }
    text
}

} // verus!
