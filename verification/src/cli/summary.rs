//! The summary of a run that is shown when it is done.
use crate::adapters::opt_text;
use crate::cli::args::ResolvedRun;
use crate::cli::resolve::given;
use crate::cli::show::{
    center, centered, describe_latency, fmt_count, fmt_int, int_text, latency_text, left, money,
    pad_right, signed, signed_text,
};
use crate::config::{ExecutionConfig, RiskConfig};
use crate::number::Number;
use crate::text::{concat2, concat3, join, joined, texts, u64_text, decimal};
use crate::types::{InstrumentBreakdown, Report, Summary};
use vstd::prelude::*;

verus! {

/// A row: what is told of, and what is told of it.
pub open spec fn row_views(rows: Seq<(String, String)>) -> Seq<(Seq<char>, Seq<char>)> {
    rows.map_values(|r: (String, String)| (r.0@, r.1@))
}

fn add_row(rows: &mut Vec<(String, String)>, key: &str, value: String)
    ensures
        row_views(final(rows)@) == row_views(old(rows)@).push((key@, value@)),
{
    let ghost was = rows@;
    let k = key.to_owned();
    let ghost row = (k, value);
    rows.push((k, value));
    proof {
        assert(row_views(rows@) =~= row_views(was).push((key@, value@)));
    }
}

/// The names of the instruments of a report.
pub open spec fn traded_names<N>(list: Seq<InstrumentBreakdown<N>>) -> Seq<Seq<char>> {
    list.map_values(|i: InstrumentBreakdown<N>| i.instrument@)
}

/// What is said of the instruments: their names where they are few, else how many there are and
/// the first two. Where there are none, what was asked for.
pub open spec fn instruments_text(names: Seq<Seq<char>>, asked: Option<Seq<char>>) -> Seq<char> {
    if names.len() == 0 {
        given(asked, "(all)"@)
    } else if names.len() <= 3 {
        joined(names, ", "@)
    } else {
        decimal(names.len()) + " instruments (e.g. "@ + names[0] + ", "@ + names[1] + ")"@
    }
}

fn name_instruments<N: Number>(
    list: &Vec<InstrumentBreakdown<N>>,
    asked: &Option<String>,
) -> (r: String)
    ensures
        r@ == instruments_text(traded_names(list@), opt_text(*asked)),
{
    let n: usize = list.len();
    if n == 0 {
        match asked {
            Some(a) => a.clone(),
            None => "(all)".to_owned(),
        }
    } else if n <= 3 {
        let mut names: Vec<String> = Vec::new();
        let mut i: usize = 0;
        while i < n
            invariant
                i <= n,
                n == list@.len(),
                names@.len() == i,
                forall|j: int| 0 <= j < i ==> (#[trigger] names@[j])@ == list@[j].instrument@,
            decreases n - i,
        {
            names.push(list[i].instrument.clone());
            i += 1;
        }
        proof {
            assert(texts(names@) =~= traded_names(list@));
        }
        join(&names, ", ")
    } else {
        let mut s = u64_text(n as u64);
        s.append(" instruments (e.g. ");
        s.append(list[0].instrument.as_str());
        s.append(", ");
        s.append(list[1].instrument.as_str());
        s.append(")");
        s
    }
}

/// A number in hundredths, with some decimals.
pub open spec fn percent<N: Number>(x: N, decimals: nat) -> Seq<char> {
    x.product(N::integer(100)).shown_fixed(decimals)
}

pub(crate) fn percent_text<N: Number>(x: N, decimals: usize) -> (r: String)
    ensures
        r@ == percent(x, decimals as nat),
{
    x.times(N::from_int(100)).fixed(decimals)
}

/// The rows on what a run has earned and lost.
pub open spec fn result_rows<N: Number>(
    rows: Seq<(Seq<char>, Seq<char>)>,
    s: Summary<N>,
) -> Seq<(Seq<char>, Seq<char>)> {
    rows.push(
        (
            "PnL total"@,
            s.pnl_total.shown_fixed(2) + " "@ + s.currency@ + " ("@ + signed_text(s.pnl_pct)
                + "%)"@,
        ),
    ).push(
        (
            "Balance"@,
            s.starting_balance.shown_fixed(2) + " -> "@ + s.ending_balance.shown_fixed(2),
        ),
    ).push(("Sharpe (per-snap)"@, s.sharpe.shown_fixed(3))).push(
        (
            "Max drawdown"@,
            s.max_drawdown.shown_fixed(2) + " ("@ + percent(s.max_drawdown_pct, 2) + "%)"@,
        ),
    ).push(("Win rate"@, percent(s.win_rate, 1) + "%"@)).push(
        (
            "Fills / round-trips"@,
            int_text(s.num_fills as int) + " / "@ + int_text(s.num_trades as int),
        ),
    ).push(
        ("Gross PnL (ex costs)"@, s.gross_pnl_ex_costs.shown_fixed(2) + " "@ + s.currency@),
    )
}

fn add_results<N: Number>(rows: &mut Vec<(String, String)>, s: &Summary<N>)
    ensures
        row_views(final(rows)@) == result_rows(row_views(old(rows)@), *s),
{
    let mut v = money(s.pnl_total);
    v.append(" ");
    v.append(s.currency.as_str());
    v.append(" (");
    v.append(signed(s.pnl_pct).as_str());
    v.append("%)");
    add_row(rows, "PnL total", v);
    let v = concat3(
        money(s.starting_balance).as_str(),
        " -> ",
        money(s.ending_balance).as_str(),
    );
    add_row(rows, "Balance", v);
    add_row(rows, "Sharpe (per-snap)", s.sharpe.fixed(3));
    let mut v = concat3(
        money(s.max_drawdown).as_str(),
        " (",
        percent_text(s.max_drawdown_pct, 2).as_str(),
    );
    v.append("%)");
    add_row(rows, "Max drawdown", v);
    let v = concat2(percent_text(s.win_rate, 1).as_str(), "%");
    add_row(rows, "Win rate", v);
    let v = concat3(fmt_int(s.num_fills).as_str(), " / ", fmt_int(s.num_trades).as_str());
    add_row(rows, "Fills / round-trips", v);
    let v = concat3(money(s.gross_pnl_ex_costs).as_str(), " ", s.currency.as_str());
    add_row(rows, "Gross PnL (ex costs)", v);
}

/// The rows on how that adds up.
pub open spec fn cost_rows<N: Number>(
    rows: Seq<(Seq<char>, Seq<char>)>,
    s: Summary<N>,
    e: ExecutionConfig<N>,
) -> Seq<(Seq<char>, Seq<char>)> {
    rows.push(
        (
            "  - fees"@,
            s.total_fees.shown_fixed(2) + " "@ + s.currency@ + if e.include_fees {
                ""@
            } else {
                " (not charged)"@
            },
        ),
    ).push(
        (
            "  - slippage"@,
            s.total_slippage_cost.shown_fixed(2) + " "@ + s.currency@ + if e.slippage.enabled {
                ""@
            } else {
                " (off)"@
            },
        ),
    ).push(
        (
            "  + rewards"@,
            s.liquidity_rewards.shown_fixed(2) + " "@ + s.currency@ + if e.include_rewards {
                ""@
            } else if e.rewards.enabled {
                " (accrued, not credited)"@
            } else {
                " (off)"@
            },
        ),
    ).push(("Volume (contracts)"@, s.total_volume_contracts.shown_fixed(0)))
}

fn priced<N: Number>(x: N, currency: &str, note: &str) -> (r: String)
    ensures
        r@ == x.shown_fixed(2) + " "@ + currency@ + note@,
{
    let mut v = concat3(money(x).as_str(), " ", currency);
    v.append(note);
    v
}

fn add_costs<N: Number>(rows: &mut Vec<(String, String)>, s: &Summary<N>, e: &ExecutionConfig<N>)
    ensures
        row_views(final(rows)@) == cost_rows(row_views(old(rows)@), *s, *e),
{
    let note = if e.include_fees {
        ""
    } else {
        " (not charged)"
    };
    add_row(rows, "  - fees", priced(s.total_fees, s.currency.as_str(), note));
    let note = if e.slippage.enabled {
        ""
    } else {
        " (off)"
    };
    add_row(rows, "  - slippage", priced(s.total_slippage_cost, s.currency.as_str(), note));
    let note = if e.include_rewards {
        ""
    } else if e.rewards.enabled {
        " (accrued, not credited)"
    } else {
        " (off)"
    };
    add_row(rows, "  + rewards", priced(s.liquidity_rewards, s.currency.as_str(), note));
    add_row(rows, "Volume (contracts)", s.total_volume_contracts.fixed(0));
}

/// The rows on what is modelled beyond the ordinary: each is there only where it matters.
pub open spec fn model_rows<N: Number>(
    rows: Seq<(Seq<char>, Seq<char>)>,
    s: Summary<N>,
    e: ExecutionConfig<N>,
) -> Seq<(Seq<char>, Seq<char>)> {
    let delayed = if e.latency.enabled {
        rows.push(("Latency model"@, latency_text(e.latency)))
    } else {
        rows
    };
    let settled = if e.settlement.path is Some || s.num_settled > 0 {
        delayed.push(
            (
                "Settled (expiry)"@,
                s.settled_pnl.shown_fixed(2) + " "@ + s.currency@ + " from "@ + int_text(
                    s.num_settled as int,
                ) + " position"@ + if s.num_settled == 1 {
                    ""@
                } else {
                    "s"@
                },
            ),
        )
    } else {
        delayed
    };
    if e.risk != RiskConfig::<N>::standard() || s.halted || s.risk_rejections > 0 {
        settled.push(
            (
                "Risk halt"@,
                if s.halted {
                    "HALTED — "@ + s.halt_reason@
                } else {
                    "no (within limits)"@
                },
            ),
        ).push(("Risk rejections"@, int_text(s.risk_rejections as int)))
    } else {
        settled
    }
}

fn add_models<N: Number>(rows: &mut Vec<(String, String)>, s: &Summary<N>, e: &ExecutionConfig<N>)
    ensures
        row_views(final(rows)@) == model_rows(row_views(old(rows)@), *s, *e),
{
    if e.latency.enabled {
        add_row(rows, "Latency model", describe_latency(&e.latency));
    }
    if e.settlement.is_enabled() || s.num_settled > 0 {
        let mut v = concat3(money(s.settled_pnl).as_str(), " ", s.currency.as_str());
        v.append(" from ");
        v.append(fmt_int(s.num_settled).as_str());
        v.append(" position");
        if s.num_settled == 1 {
            v.append("");
        } else {
            v.append("s");
        }
        add_row(rows, "Settled (expiry)", v);
    }
    if e.risk.any_enabled() || s.halted || s.risk_rejections > 0 {
        let v = if s.halted {
            concat2("HALTED — ", s.halt_reason.as_str())
        } else {
            "no (within limits)".to_owned()
        };
        add_row(rows, "Risk halt", v);
        add_row(rows, "Risk rejections", fmt_int(s.risk_rejections));
    }
}

/// The rows on what was written.
pub open spec fn output_rows(
    rows: Seq<(Seq<char>, Seq<char>)>,
    tearsheet: Option<Seq<char>>,
    export_dir: Option<Seq<char>>,
) -> Seq<(Seq<char>, Seq<char>)> {
    let sheet = match tearsheet {
        Some(t) => rows.push(("Tearsheet"@, t)),
        None => rows,
    };
    let exports = match export_dir {
        Some(d) => sheet.push(("Exports"@, d)),
        None => sheet,
    };
    exports.push(("report.json"@, "printed above between sentinels (stdout)"@))
}

/// All rows of the summary of a run.
pub open spec fn rows_of<N: Number>(
    report: Report<N>,
    run: ResolvedRun<N>,
    n_events: nat,
    tearsheet: Option<Seq<char>>,
    export_dir: Option<Seq<char>>,
) -> Seq<(Seq<char>, Seq<char>)> {
    let s = report.summary;
    let e = run.spec.execution;
    let head = Seq::<(Seq<char>, Seq<char>)>::empty().push(
        ("Strategy"@, run.spec.strategy@),
    ).push(
        (
            "Instrument(s)"@,
            instruments_text(
                traded_names(report.instrument_breakdown@),
                opt_text(run.spec.instrument),
            ),
        ),
    ).push(("Events processed"@, int_text(n_events as int)));
    output_rows(
        model_rows(cost_rows(result_rows(head, s), s, e), s, e),
        tearsheet,
        export_dir,
    )
}

/// All rows of the summary of a run.
pub fn summary_rows<N: Number>(
    report: &Report<N>,
    run: &ResolvedRun<N>,
    n_events: usize,
    tearsheet: &Option<String>,
    export_dir: &Option<String>,
) -> (r: Vec<(String, String)>)
    ensures
        row_views(r@) == rows_of(
            *report,
            *run,
            n_events as nat,
            opt_text(*tearsheet),
            opt_text(*export_dir),
        ),
{
    let s = &report.summary;
    let e = &run.spec.execution;
    let mut rows: Vec<(String, String)> = Vec::new();
    proof {
        assert(row_views(rows@) =~= Seq::<(Seq<char>, Seq<char>)>::empty());
    }
    add_row(&mut rows, "Strategy", run.spec.strategy.clone());
    add_row(
        &mut rows,
        "Instrument(s)",
        name_instruments(&report.instrument_breakdown, &run.spec.instrument),
    );
    add_row(&mut rows, "Events processed", fmt_count(n_events as u64));
    add_results(&mut rows, s);
    add_costs(&mut rows, s, e);
    add_models(&mut rows, s, e);
    if let Some(t) = tearsheet {
        add_row(&mut rows, "Tearsheet", t.clone());
    }
    if let Some(d) = export_dir {
        add_row(&mut rows, "Exports", d.clone());
    }
    add_row(
        &mut rows,
        "report.json",
        "printed above between sentinels (stdout)".to_owned(),
    );
    rows
}

// ---- the box --------------------------------------------------------------------------------

/// The length of the longest of some texts.
pub open spec fn widest(list: Seq<Seq<char>>) -> nat
    decreases list.len(),
{
    if list.len() == 0 {
        0
    } else {
        let w = widest(list.drop_last());
        if list.last().len() > w {
            list.last().len()
        } else {
            w
        }
    }
}

/// The left column.
pub open spec fn keys_in(rows: Seq<(Seq<char>, Seq<char>)>) -> Seq<Seq<char>> {
    rows.map_values(|r: (Seq<char>, Seq<char>)| r.0)
}

/// The right column.
pub open spec fn values_in(rows: Seq<(Seq<char>, Seq<char>)>) -> Seq<Seq<char>> {
    rows.map_values(|r: (Seq<char>, Seq<char>)| r.1)
}

/// A row between two columns of some widths.
pub open spec fn row_text(row: (Seq<char>, Seq<char>), key_w: nat, val_w: nat) -> Seq<char> {
    left(row.0, key_w) + " : "@ + left(row.1, val_w)
}

/// The width inside the box: that of a row, and at least that of the title with a space on
/// either side.
pub open spec fn inner_width(key_w: nat, val_w: nat) -> nat {
    if key_w + 3 + val_w > 18 {
        key_w + 3 + val_w
    } else {
        18
    }
}

/// A line across the box.
pub open spec fn bar(n: nat) -> Seq<char> {
    Seq::new(n, |i: int| '─')
}

/// The rows between the sides of the box.
pub open spec fn framed_rows(
    rows: Seq<(Seq<char>, Seq<char>)>,
    key_w: nat,
    val_w: nat,
) -> Seq<Seq<char>> {
    rows.map_values(
        |r: (Seq<char>, Seq<char>)|
            "│ "@ + left(row_text(r, key_w, val_w), inner_width(key_w, val_w)) + " │"@,
    )
}

/// The lines of the box, with an empty one before them.
pub open spec fn box_lines(rows: Seq<(Seq<char>, Seq<char>)>) -> Seq<Seq<char>> {
    let key_w = widest(keys_in(rows));
    let val_w = widest(values_in(rows));
    let inner = inner_width(key_w, val_w);
    let b = bar(inner + 2);
    Seq::<Seq<char>>::empty().push(""@).push("┌"@ + b + "┐"@).push(
        "│ "@ + centered("BACKTEST SUMMARY"@, inner) + " │"@,
    ).push("├"@ + b + "┤"@) + framed_rows(rows, key_w, val_w).push("└"@ + b + "┘"@)
}

fn column_widths(rows: &Vec<(String, String)>) -> (r: (usize, usize))
    ensures
        r.0 == widest(keys_in(row_views(rows@))),
        r.1 == widest(values_in(row_views(rows@))),
{
    let ghost keys = keys_in(row_views(rows@));
    let ghost vals = values_in(row_views(rows@));
    let mut key_w: usize = 0;
    let mut val_w: usize = 0;
    let n: usize = rows.len();
    let mut i: usize = 0;
    while i < n
        invariant
            i <= n,
            n == rows@.len(),
            keys == keys_in(row_views(rows@)),
            vals == values_in(row_views(rows@)),
            key_w == widest(keys.take(i as int)),
            val_w == widest(vals.take(i as int)),
        decreases n - i,
    {
        proof {
            assert(keys.take(i + 1).drop_last() =~= keys.take(i as int));
            assert(vals.take(i + 1).drop_last() =~= vals.take(i as int));
            assert(keys.take(i + 1).last() == rows@[i as int].0@);
            assert(vals.take(i + 1).last() == rows@[i as int].1@);
        }
        let k: usize = rows[i].0.as_str().unicode_len();
        if k > key_w {
            key_w = k;
        }
        let v: usize = rows[i].1.as_str().unicode_len();
        if v > val_w {
            val_w = v;
        }
        i += 1;
    }
    proof {
        assert(keys.take(n as int) =~= keys);
        assert(vals.take(n as int) =~= vals);
    }
    (key_w, val_w)
}

fn bar_text(inner: usize) -> (r: String)
    ensures
        r@ == bar((inner + 2) as nat),
{
    let mut s = String::new();
    s.push('─');
    s.push('─');
    proof {
        assert(s@ =~= bar(2));
    }
    let mut i: usize = 0;
    while i < inner
        invariant
            i <= inner,
            s@ == bar((i + 2) as nat),
        decreases inner - i,
    {
        s.push('─');
        proof {
            assert(s@ =~= bar((i + 1 + 2) as nat));
        }
        i += 1;
    }
    s
}

proof fn lemma_widest(list: Seq<Seq<char>>, i: int)
    requires
        0 <= i < list.len(),
    ensures
        list[i].len() <= widest(list),
    decreases list.len(),
{
    if i < list.len() - 1 {
        lemma_widest(list.drop_last(), i);
    }
}

fn framed(key: &str, val: &str, key_w: usize, val_w: usize) -> (r: String)
    requires
        key@.len() <= key_w,
        val@.len() <= val_w,
    ensures
        r@ == "│ "@ + left(
            row_text((key@, val@), key_w as nat, val_w as nat),
            inner_width(key_w as nat, val_w as nat),
        ) + " │"@,
{
    proof {
        reveal_strlit(" : ");
    }
    let line = concat3(pad_right(key, key_w).as_str(), " : ", pad_right(val, val_w).as_str());
    let wide = pad_right(line.as_str(), 18);
    proof {
        let row = row_text((key@, val@), key_w as nat, val_w as nat);
        assert(row.len() == key_w + 3 + val_w);
        assert(wide@ =~= left(row, inner_width(key_w as nat, val_w as nat)));
    }
    concat3("│ ", wide.as_str(), " │")
}

fn inner_of(key_w: usize, val_w: usize) -> (r: usize)
    ensures
        r == inner_width(key_w as nat, val_w as nat),
{
    proof {
        reveal_strlit(" : ");
        reveal_strlit("");
    }
    let line = concat3(pad_right("", key_w).as_str(), " : ", pad_right("", val_w).as_str());
    let wide = pad_right(line.as_str(), 18);
    wide.as_str().unicode_len()
}

/// Draws rows in a box: two columns under a title.
pub fn draw_box(rows: &Vec<(String, String)>) -> (r: Vec<String>)
    ensures
        texts(r@) == box_lines(row_views(rows@)),
{
    let ghost views = row_views(rows@);
    let (key_w, val_w): (usize, usize) = column_widths(rows);
    let inner: usize = inner_of(key_w, val_w);
    let b = bar_text(inner);
    let mut out: Vec<String> = Vec::new();
    out.push("".to_owned());
    out.push(concat3("┌", b.as_str(), "┐"));
    out.push(concat3("│ ", center("BACKTEST SUMMARY", inner).as_str(), " │"));
    out.push(concat3("├", b.as_str(), "┤"));
    let ghost head = texts(out@);
    proof {
        assert(head =~= Seq::<Seq<char>>::empty().push(""@).push("┌"@ + b@ + "┐"@).push(
            "│ "@ + centered("BACKTEST SUMMARY"@, inner as nat) + " │"@,
        ).push("├"@ + b@ + "┤"@));
    }
    let ghost due = framed_rows(views, key_w as nat, val_w as nat);
    let n: usize = rows.len();
    let mut i: usize = 0;
    while i < n
        invariant
            i <= n,
            n == rows@.len(),
            views == row_views(rows@),
            key_w == widest(keys_in(views)),
            val_w == widest(values_in(views)),
            due == framed_rows(views, key_w as nat, val_w as nat),
            texts(out@) =~= head + due.take(i as int),
        decreases n - i,
    {
        proof {
            lemma_widest(keys_in(views), i as int);
            lemma_widest(values_in(views), i as int);
        }
        let ghost was = out@;
        out.push(framed(rows[i].0.as_str(), rows[i].1.as_str(), key_w, val_w));
        proof {
            assert(texts(out@) =~= texts(was).push(due[i as int]));
            assert(due.take(i + 1) =~= due.take(i as int).push(due[i as int]));
        }
        i += 1;
    }
    let ghost was = out@;
    out.push(concat3("└", b.as_str(), "┘"));
    proof {
        let foot = "└"@ + b@ + "┘"@;
        assert(due.take(n as int) =~= due);
        assert(texts(out@) =~= texts(was).push(foot));
        assert((head + due).push(foot) =~= head + due.push(foot));
        assert(b@ == bar(inner_width(key_w as nat, val_w as nat) + 2));
        assert(texts(out@) =~= box_lines(views));
    }
    out
}

/// The lines of the summary of a run.
pub fn human_summary<N: Number>(
    report: &Report<N>,
    run: &ResolvedRun<N>,
    n_events: usize,
    tearsheet: &Option<String>,
    export_dir: &Option<String>,
) -> (r: Vec<String>)
    ensures
        texts(r@) == box_lines(
            rows_of(
                *report,
                *run,
                n_events as nat,
                opt_text(*tearsheet),
                opt_text(*export_dir),
            ),
        ),
{
    let rows = summary_rows(report, run, n_events, tearsheet, export_dir);
    draw_box(&rows)
}

/// All rows of the box are as wide as its bars.
pub proof fn law_box_is_even(rows: Seq<(Seq<char>, Seq<char>)>, i: int)
    requires
        0 <= i < rows.len(),
    ensures
        ({
            let key_w = widest(keys_in(rows));
            let val_w = widest(values_in(rows));
            framed_rows(rows, key_w, val_w)[i].len() == ("┌"@ + bar(inner_width(key_w, val_w) + 2)
                + "┐"@).len()
        }),
{
    lemma_widest(keys_in(rows), i);
    lemma_widest(values_in(rows), i);
    reveal_strlit("┌");
    reveal_strlit("┐");
    reveal_strlit("│ ");
    reveal_strlit(" │");
    reveal_strlit(" : ");
}

} // verus!
