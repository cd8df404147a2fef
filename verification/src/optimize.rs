//! Sweeps over parameters: grids, rankings and the parts of a timeline.
use crate::config::BacktestConfig;
use crate::engine::state::EngineView;
use crate::engine::{can_end, opened, Engine, FilesView, RunFiles, RunOutput};
use crate::exports::{fmt, table_number};
use crate::fixed::Fixed;
use crate::number::{Analytic, Number};
use crate::report::sums_up;
use crate::strategy::{Noop, Strategy};
use crate::strmap::{entry, law_put_then_find, put_entry, StrMap};
use crate::text::{
    ascii_lower, decimal, join, joined, lemma_texts_push, same_text, split, split_at_char,
    split_once, split_once_at, texts, to_ascii_lower, trim, trimmed, u64_text,
};
use crate::types::{event_views, EventView, MarketEvent, Summary};
use vstd::arithmetic::div_mod::{
    lemma_fundamental_div_mod, lemma_fundamental_div_mod_converse, lemma_mod_bound,
};
use vstd::prelude::*;

verus! {

/// The most combinations that a grid may have.
pub const MAX_COMBOS: usize = 5000;

/// A point of a grid: a value for each parameter.
#[derive(Debug, Clone, PartialEq)]
pub struct Combo<N> {
    pub params: StrMap<N>,
}

impl<N> View for Combo<N> {
    type V = Seq<(Seq<char>, N)>;

    open spec fn view(&self) -> Seq<(Seq<char>, N)> {
        self.params.listing()
    }
}

/// What each of some combinations says.
pub open spec fn combo_views<N>(combos: Seq<Combo<N>>) -> Seq<Seq<(Seq<char>, N)>> {
    combos.map_values(|c: Combo<N>| c@)
}

/// Each parameter with its value.
pub open spec fn settings_of<N: Number>(params: Seq<(Seq<char>, N)>) -> Seq<Seq<char>> {
    params.map_values(|e: (Seq<char>, N)| e.0 + "="@ + table_number(e.1))
}

impl<N: Number> Combo<N> {
    /// The same combination once more.
    pub fn copy(&self) -> (r: Combo<N>)
        ensures
            r@ == self@,
    {
        Combo { params: self.params.copied() }
    }

    /// The values, by parameter.
    pub fn as_strategy_params(&self) -> (r: StrMap<N>)
        ensures
            r.listing() == self@,
    {
        self.params.copied()
    }

    /// The combination in one line: each parameter with its value, in the order of the parameters.
    pub fn label(&self) -> (r: String)
        ensures
            r@ == joined(settings_of(self@), ","@),
    {
        self.written(",")
    }

    /// The combination in one line, with something between its parameters.
    pub fn written(&self, between: &str) -> (r: String)
        ensures
            r@ == joined(settings_of(self@), between@),
    {
        let ghost all = self@;
        let mut parts: Vec<String> = Vec::new();
        let n: usize = self.params.len();
        let mut i: usize = 0;
        proof {
            assert(texts(parts@) =~= settings_of(all.take(0)));
        }
        while i < n
            invariant
                i <= n,
                n == all.len(),
                n == self.params.keys().len(),
                all == self.params.listing(),
                texts(parts@) == settings_of(all.take(i as int)),
            decreases n - i,
        {
            let mut s = self.params.key_at(i).clone();
            s.append("=");
            s.append(fmt_num(*self.params.value_at(i)).as_str());
            proof {
                lemma_texts_push(parts@, s);
                assert(settings_of(all.take(i + 1)) =~= settings_of(all.take(i as int)).push(s@));
            }
            parts.push(s);
            i += 1;
        }
        proof {
            assert(all.take(n as int) =~= all);
        }
        join(&parts, between)
    }
}

/// Writes a value of a grid: whole numbers without a point, others with up to six decimals.
pub fn fmt_num<N: Number>(v: N) -> (r: String)
    ensures
        r@ == table_number(v),
{
    fmt(v)
}

/// A parameter and the values that it is to have.
#[derive(Debug, Clone, PartialEq)]
pub struct ParamAxis<N> {
    pub name: String,
    pub values: Vec<N>,
}

/// What an axis says.
#[verifier::ext_equal]
pub struct AxisView<N> {
    pub name: Seq<char>,
    pub values: Seq<N>,
}

impl<N> View for ParamAxis<N> {
    type V = AxisView<N>;

    open spec fn view(&self) -> AxisView<N> {
        AxisView { name: self.name@, values: self.values@ }
    }
}

/// What each of some axes says.
pub open spec fn axis_views<N>(axes: Seq<ParamAxis<N>>) -> Seq<AxisView<N>> {
    axes.map_values(|a: ParamAxis<N>| a@)
}

/// The numbers that some parts write, or the first part that writes none. Parts of nothing but
/// space are passed over.
pub open spec fn values_of<N: Number>(parts: Seq<Seq<char>>) -> Result<Seq<N>, Seq<char>>
    decreases parts.len(),
{
    if parts.len() == 0 {
        Ok(Seq::empty())
    } else {
        let part = trimmed(parts.last());
        match values_of::<N>(parts.drop_last()) {
            Err(bad) => Err(bad),
            Ok(before) => if part.len() == 0 {
                Ok(before)
            } else {
                match N::written(part) {
                    Some(v) => Ok(before.push(v)),
                    None => Err(part),
                }
            },
        }
    }
}

/// What stands before the reason that an axis is refused.
pub open spec fn bad_axis(raw: Seq<char>) -> Seq<char> {
    "bad --param '"@ + raw
}

/// The axis that a text gives, or why it gives none.
pub open spec fn axis_of<N: Number>(raw: Seq<char>) -> Result<AxisView<N>, Seq<char>> {
    match split_once_at(raw, '=') {
        None => Err(bad_axis(raw) + "' (expected name=v1,v2,...)"@),
        Some((k, v)) => if trimmed(k).len() == 0 {
            Err(bad_axis(raw) + "' (empty parameter name)"@)
        } else {
            match values_of::<N>(split_at_char(v, ',')) {
                Err(part) => Err(bad_axis(raw) + "': value '"@ + part + "' is not a number"@),
                Ok(values) => if values.len() == 0 {
                    Err(bad_axis(raw) + "' (no values \u{2014} expected name=v1,v2,...)"@)
                } else {
                    Ok(AxisView { name: trimmed(k), values })
                },
            }
        },
    }
}

fn refused(raw: &str) -> (r: String)
    ensures
        r@ == bad_axis(raw@),
{
    let mut s = "bad --param '".to_owned();
    s.append(raw);
    s
}

fn read_values<N: Number>(parts: &Vec<String>) -> (r: Result<Vec<N>, String>)
    ensures
        match r {
            Ok(v) => values_of::<N>(texts(parts@)) == Ok::<Seq<N>, Seq<char>>(v@),
            Err(bad) => values_of::<N>(texts(parts@)) == Err::<Seq<N>, Seq<char>>(bad@),
        },
{
    let ghost all = texts(parts@);
    let mut values: Vec<N> = Vec::new();
    let n: usize = parts.len();
    let mut i: usize = 0;
    while i < n
        invariant
            i <= n,
            n == parts@.len(),
            all == texts(parts@),
            values_of::<N>(all.take(i as int)) == Ok::<Seq<N>, Seq<char>>(values@),
        decreases n - i,
    {
        let part = trim(parts[i].as_str());
        proof {
            assert(all.take(i + 1).drop_last() =~= all.take(i as int));
            assert(all.take(i + 1).last() == parts@[i as int]@);
        }
        if part.as_str().unicode_len() > 0 {
            match N::parse(part.as_str()) {
                Some(v) => {
                    values.push(v);
                },
                None => {
                    proof {
                        lemma_bad_part_stays::<N>(all, i + 1);
                    }
                    return Err(part);
                },
            }
        }
        i += 1;
    }
    proof {
        assert(all.take(n as int) =~= all);
    }
    Ok(values)
}

proof fn lemma_bad_part_stays<N: Number>(parts: Seq<Seq<char>>, i: int)
    requires
        0 <= i <= parts.len(),
        values_of::<N>(parts.take(i)) is Err,
    ensures
        values_of::<N>(parts) == values_of::<N>(parts.take(i)),
    decreases parts.len() - i,
{
    if i == parts.len() {
        assert(parts.take(i) =~= parts);
    } else {
        assert(parts.take(i + 1).drop_last() =~= parts.take(i));
        lemma_bad_part_stays::<N>(parts, i + 1);
    }
}

/// Reads an axis: a name, an equals sign, and numbers with commas between them.
pub fn parse_param_axis<N: Number>(raw: &str) -> (r: Result<ParamAxis<N>, String>)
    ensures
        match r {
            Ok(a) => axis_of::<N>(raw@) == Ok::<AxisView<N>, Seq<char>>(a@),
            Err(e) => axis_of::<N>(raw@) == Err::<AxisView<N>, Seq<char>>(e@),
        },
{
    let (k, v): (String, String) = match split_once(raw, '=') {
        Some(kv) => kv,
        None => {
            let mut e = refused(raw);
            e.append("' (expected name=v1,v2,...)");
            return Err(e);
        },
    };
    let name = trim(k.as_str());
    if name.as_str().unicode_len() == 0 {
        let mut e = refused(raw);
        e.append("' (empty parameter name)");
        return Err(e);
    }
    let parts = split(v.as_str(), ',');
    match read_values::<N>(&parts) {
        Err(part) => {
            let mut e = refused(raw);
            e.append("': value '");
            e.append(part.as_str());
            e.append("' is not a number");
            Err(e)
        },
        Ok(values) => {
            if values.len() == 0 {
                let mut e = refused(raw);
                e.append("' (no values \u{2014} expected name=v1,v2,...)");
                return Err(e);
            }
            Ok(ParamAxis { name, values })
        },
    }
}

/// How many combinations some axes have; nothing where their count goes beyond what can be
/// counted on the way.
pub open spec fn grid_size<N>(axes: Seq<AxisView<N>>) -> Option<nat>
    decreases axes.len(),
{
    if axes.len() == 0 {
        Some(1)
    } else {
        match grid_size(axes.drop_last()) {
            Some(n) => if n * axes.last().values.len() > usize::MAX {
                None
            } else {
                Some(n * axes.last().values.len())
            },
            None => None,
        }
    }
}

/// The values that the number of a combination picks, with those picked already. The last axis
/// runs fastest; of two axes with one name the first counts.
pub open spec fn picked<N>(
    done: Seq<(Seq<char>, N)>,
    axes: Seq<AxisView<N>>,
    number: nat,
) -> Seq<(Seq<char>, N)>
    decreases axes.len(),
{
    if axes.len() == 0 {
        done
    } else {
        let a = axes.last();
        let n = a.values.len();
        picked(
            put_entry(done, a.name, a.values[(number % n) as int]),
            axes.drop_last(),
            number / n,
        )
    }
}

/// The combination with a number.
pub open spec fn combo_at<N>(axes: Seq<AxisView<N>>, number: nat) -> Seq<(Seq<char>, N)> {
    picked(Seq::empty(), axes, number)
}

/// The combinations of some axes, in the order of their numbers, or why there are none.
pub open spec fn grid_of<N>(axes: Seq<AxisView<N>>) -> Result<
    Seq<Seq<(Seq<char>, N)>>,
    Seq<char>,
> {
    if axes.len() == 0 {
        Err("no --param axes given (need at least one 'name=v1,v2,...')"@)
    } else {
        match grid_size(axes) {
            None => Err("parameter grid is astronomically large (overflow)"@),
            Some(total) => if total > MAX_COMBOS {
                Err(
                    "parameter grid has "@ + decimal(total)
                        + " combinations, exceeding the cap of "@ + decimal(MAX_COMBOS as nat)
                        + " \u{2014} reduce the number of --param values (or axes)"@,
                )
            } else {
                Ok(Seq::new(total, |i: int| combo_at(axes, i as nat)))
            },
        }
    }
}

fn grid_total<N>(axes: &[ParamAxis<N>]) -> (r: Option<usize>)
    ensures
        match r {
            Some(n) => grid_size(axis_views(axes@)) == Some(n as nat),
            None => grid_size(axis_views(axes@)) is None,
        },
{
    let ghost all = axis_views(axes@);
    let mut total: usize = 1;
    let n: usize = axes.len();
    let mut i: usize = 0;
    while i < n
        invariant
            i <= n,
            n == axes@.len(),
            all == axis_views(axes@),
            grid_size(all.take(i as int)) == Some(total as nat),
        decreases n - i,
    {
        proof {
            assert(all.take(i + 1).drop_last() =~= all.take(i as int));
            assert(all.take(i + 1).last() == axes@[i as int]@);
        }
        match total.checked_mul(axes[i].values.len()) {
            Some(t) => {
                total = t;
            },
            None => {
                proof {
                    lemma_uncounted_stays(all, i + 1);
                }
                return None;
            },
        }
        i += 1;
    }
    proof {
        assert(all.take(n as int) =~= all);
    }
    Some(total)
}

proof fn lemma_uncounted_stays<N>(axes: Seq<AxisView<N>>, i: int)
    requires
        0 <= i <= axes.len(),
        grid_size(axes.take(i)) is None,
    ensures
        grid_size(axes) is None,
    decreases axes.len() - i,
{
    if i == axes.len() {
        assert(axes.take(i) =~= axes);
    } else {
        assert(axes.take(i + 1).drop_last() =~= axes.take(i));
        lemma_uncounted_stays(axes, i + 1);
    }
}

proof fn lemma_axes_have_values<N>(axes: Seq<AxisView<N>>, i: int)
    requires
        0 <= i < axes.len(),
        grid_size(axes) is Some,
        grid_size(axes).unwrap() > 0,
    ensures
        axes[i].values.len() > 0,
    decreases axes.len(),
{
    let n = grid_size(axes.drop_last()).unwrap();
    let m = axes.last().values.len();
    if m == 0 {
        assert(n * m == 0) by (nonlinear_arith)
            requires
                m == 0,
        ;
    }
    if n == 0 {
        assert(n * m == 0) by (nonlinear_arith)
            requires
                n == 0,
        ;
    }
    if i < axes.len() - 1 {
        lemma_axes_have_values(axes.drop_last(), i);
        assert(axes.drop_last()[i] == axes[i]);
    }
}

fn pick<N: Number>(axes: &[ParamAxis<N>], number: usize) -> (r: Combo<N>)
    requires
        forall|i: int| 0 <= i < axes@.len() ==> (#[trigger] axes@[i]).values@.len() > 0,
    ensures
        r@ == combo_at(axis_views(axes@), number as nat),
{
    let ghost all = axis_views(axes@);
    let mut params: StrMap<N> = StrMap::new();
    let mut rem: usize = number;
    let mut i: usize = axes.len();
    proof {
        assert(all.take(i as int) =~= all);
    }
    while i > 0
        invariant
            i <= axes@.len(),
            all == axis_views(axes@),
            forall|j: int| 0 <= j < axes@.len() ==> (#[trigger] axes@[j]).values@.len() > 0,
            picked(params.listing(), all.take(i as int), rem as nat) == combo_at(
                all,
                number as nat,
            ),
        decreases i,
    {
        let a = &axes[i - 1];
        let n: usize = a.values.len();
        proof {
            assert(all.take(i as int).drop_last() =~= all.take(i - 1));
            assert(all.take(i as int).last() == a@);
        }
        let at: usize = rem % n;
        params.insert(a.name.clone(), a.values[at]);
        rem = rem / n;
        i -= 1;
    }
    Combo { params }
}

/// All combinations of the values of some axes; the last axis runs fastest.
pub fn expand_grid<N: Number>(axes: &[ParamAxis<N>]) -> (r: Result<Vec<Combo<N>>, String>)
    ensures
        match r {
            Ok(combos) => grid_of(axis_views(axes@)) == Ok::<
                Seq<Seq<(Seq<char>, N)>>,
                Seq<char>,
            >(combo_views(combos@)),
            Err(e) => grid_of(axis_views(axes@)) == Err::<Seq<Seq<(Seq<char>, N)>>, Seq<char>>(e@),
        },
{
    let ghost all = axis_views(axes@);
    if axes.len() == 0 {
        return Err("no --param axes given (need at least one 'name=v1,v2,...')".to_owned());
    }
    let total: usize = match grid_total(axes) {
        Some(t) => t,
        None => {
            return Err("parameter grid is astronomically large (overflow)".to_owned());
        },
    };
    if total > MAX_COMBOS {
        let mut e = "parameter grid has ".to_owned();
        e.append(u64_text(total as u64).as_str());
        e.append(" combinations, exceeding the cap of ");
        e.append(u64_text(MAX_COMBOS as u64).as_str());
        e.append(" \u{2014} reduce the number of --param values (or axes)");
        return Err(e);
    }
    let mut combos: Vec<Combo<N>> = Vec::new();
    let mut i: usize = 0;
    proof {
        if total > 0 {
            assert forall|j: int| 0 <= j < axes@.len() implies (
            #[trigger] axes@[j]).values@.len() > 0 by {
                lemma_axes_have_values(all, j);
                assert(all[j] == axes@[j]@);
            }
        }
    }
    while i < total
        invariant
            i <= total,
            all == axis_views(axes@),
            total > 0 ==> forall|j: int|
                0 <= j < axes@.len() ==> (#[trigger] axes@[j]).values@.len() > 0,
            combos@.len() == i,
            forall|j: int| 0 <= j < i ==> (#[trigger] combos@[j])@ == combo_at(all, j as nat),
        decreases total - i,
    {
        combos.push(pick(axes, i));
        i += 1;
    }
    proof {
        assert(combo_views(combos@) =~= Seq::new(total as nat, |j: int| combo_at(all, j as nat)));
    }
    Ok(combos)
}

/// What a ranking goes by. Of each, more is better.
#[derive(Debug, Clone, Copy, PartialEq, Eq, Structural)]
pub enum Metric {
    PnlTotal,
    Sharpe,
    Sortino,
    Calmar,
    WinRate,
    ProfitFactor,
    EndingBalance,
    Expectancy,
}

impl Metric {
    /// The name.
    pub open spec fn title(self) -> Seq<char> {
        match self {
            Metric::PnlTotal => "pnl_total"@,
            Metric::Sharpe => "sharpe"@,
            Metric::Sortino => "sortino"@,
            Metric::Calmar => "calmar_ratio"@,
            Metric::WinRate => "win_rate"@,
            Metric::ProfitFactor => "profit_factor"@,
            Metric::EndingBalance => "ending_balance"@,
            Metric::Expectancy => "expectancy"@,
        }
    }

    /// All metrics, in the order in which they are told.
    pub open spec fn every() -> Seq<Metric> {
        seq![
            Metric::PnlTotal,
            Metric::Sharpe,
            Metric::Sortino,
            Metric::Calmar,
            Metric::WinRate,
            Metric::ProfitFactor,
            Metric::EndingBalance,
            Metric::Expectancy,
        ]
    }

    /// The names of all metrics.
    pub open spec fn titles() -> Seq<Seq<char>> {
        Metric::every().map_values(|m: Metric| m.title())
    }

    /// The names of all metrics.
    pub fn all() -> (r: Vec<String>)
        ensures
            texts(r@) == Metric::titles(),
    {
        let every = vec![
            Metric::PnlTotal,
            Metric::Sharpe,
            Metric::Sortino,
            Metric::Calmar,
            Metric::WinRate,
            Metric::ProfitFactor,
            Metric::EndingBalance,
            Metric::Expectancy,
        ];
        assert(every@ =~= Metric::every());
        let mut r: Vec<String> = Vec::new();
        let mut i: usize = 0;
        while i < every.len()
            invariant
                i <= every@.len(),
                every@ == Metric::every(),
                r@.len() == i,
                forall|j: int| 0 <= j < i ==> (#[trigger] r@[j])@ == every@[j].title(),
            decreases every@.len() - i,
        {
            r.push(every[i].name().to_owned());
            i += 1;
        }
        assert(texts(r@) =~= Metric::titles());
        r
    }

    /// The metric that a name in lower case stands for.
    pub open spec fn named(n: Seq<char>) -> Option<Metric> {
        if n == "pnl_total"@ || n == "pnl"@ {
            Some(Metric::PnlTotal)
        } else if n == "sharpe"@ {
            Some(Metric::Sharpe)
        } else if n == "sortino"@ {
            Some(Metric::Sortino)
        } else if n == "calmar_ratio"@ || n == "calmar"@ {
            Some(Metric::Calmar)
        } else if n == "win_rate"@ || n == "winrate"@ {
            Some(Metric::WinRate)
        } else if n == "profit_factor"@ || n == "pf"@ {
            Some(Metric::ProfitFactor)
        } else if n == "ending_balance"@ || n == "balance"@ {
            Some(Metric::EndingBalance)
        } else if n == "expectancy"@ {
            Some(Metric::Expectancy)
        } else {
            None
        }
    }

    /// What a summary says of the metric.
    pub open spec fn of<N>(self, s: Summary<N>) -> N {
        match self {
            Metric::PnlTotal => s.pnl_total,
            Metric::Sharpe => s.sharpe,
            Metric::Sortino => s.sortino,
            Metric::Calmar => s.calmar_ratio,
            Metric::WinRate => s.win_rate,
            Metric::ProfitFactor => s.profit_factor,
            Metric::EndingBalance => s.ending_balance,
            Metric::Expectancy => s.expectancy,
        }
    }

    /// Reads the name of a metric, in upper or lower case, with space about it.
    pub fn parse(name: &str) -> (r: Result<Metric, String>)
        ensures
            match r {
                Ok(m) => Metric::named(ascii_lower(trimmed(name@))) == Some(m),
                Err(e) => Metric::named(ascii_lower(trimmed(name@))) is None && e@
                    == "unknown --metric '"@ + ascii_lower(trimmed(name@))
                    + "' \u{2014} supported: "@ + joined(Metric::titles(), ", "@),
            },
    {
        let t = trim(name);
        let n = to_ascii_lower(t.as_str());
        let s = n.as_str();
        if same_text(s, "pnl_total") || same_text(s, "pnl") {
            Ok(Metric::PnlTotal)
        } else if same_text(s, "sharpe") {
            Ok(Metric::Sharpe)
        } else if same_text(s, "sortino") {
            Ok(Metric::Sortino)
        } else if same_text(s, "calmar_ratio") || same_text(s, "calmar") {
            Ok(Metric::Calmar)
        } else if same_text(s, "win_rate") || same_text(s, "winrate") {
            Ok(Metric::WinRate)
        } else if same_text(s, "profit_factor") || same_text(s, "pf") {
            Ok(Metric::ProfitFactor)
        } else if same_text(s, "ending_balance") || same_text(s, "balance") {
            Ok(Metric::EndingBalance)
        } else if same_text(s, "expectancy") {
            Ok(Metric::Expectancy)
        } else {
            let mut e = "unknown --metric '".to_owned();
            e.append(s);
            e.append("' \u{2014} supported: ");
            let known = join(&Metric::all(), ", ");
            e.append(known.as_str());
            Err(e)
        }
    }

    /// The name.
    pub fn name(self) -> (r: &'static str)
        ensures
            r@ == self.title(),
    {
        match self {
            Metric::PnlTotal => "pnl_total",
            Metric::Sharpe => "sharpe",
            Metric::Sortino => "sortino",
            Metric::Calmar => "calmar_ratio",
            Metric::WinRate => "win_rate",
            Metric::ProfitFactor => "profit_factor",
            Metric::EndingBalance => "ending_balance",
            Metric::Expectancy => "expectancy",
        }
    }

    /// What a summary says of the metric.
    pub fn value<N: Number>(self, s: &Summary<N>) -> (r: N)
        ensures
            r == self.of(*s),
    {
        match self {
            Metric::PnlTotal => s.pnl_total,
            Metric::Sharpe => s.sharpe,
            Metric::Sortino => s.sortino,
            Metric::Calmar => s.calmar_ratio,
            Metric::WinRate => s.win_rate,
            Metric::ProfitFactor => s.profit_factor,
            Metric::EndingBalance => s.ending_balance,
            Metric::Expectancy => s.expectancy,
        }
    }
}

/// A metric is found again by its name.
pub proof fn law_metric_names_read_back(m: Metric)
    ensures
        Metric::named(m.title()) == Some(m),
{
    reveal_strlit("pnl_total");
    reveal_strlit("pnl");
    reveal_strlit("sharpe");
    reveal_strlit("sortino");
    reveal_strlit("calmar_ratio");
    reveal_strlit("calmar");
    reveal_strlit("win_rate");
    reveal_strlit("winrate");
    reveal_strlit("profit_factor");
    reveal_strlit("pf");
    reveal_strlit("ending_balance");
    reveal_strlit("balance");
    reveal_strlit("expectancy");
    assert("pnl_total"@[0] == 'p' && "pnl_total"@[1] == 'n');
    assert("pnl"@[0] == 'p' && "pnl"@[1] == 'n');
    assert("sharpe"@[0] == 's' && "sharpe"@[1] == 'h');
    assert("sortino"@[0] == 's' && "sortino"@[1] == 'o');
    assert("calmar_ratio"@[0] == 'c' && "calmar_ratio"@[1] == 'a');
    assert("calmar"@[0] == 'c' && "calmar"@[1] == 'a');
    assert("win_rate"@[0] == 'w' && "win_rate"@[1] == 'i');
    assert("winrate"@[0] == 'w' && "winrate"@[1] == 'i');
    assert("profit_factor"@[0] == 'p' && "profit_factor"@[1] == 'r');
    assert("pf"@[0] == 'p' && "pf"@[1] == 'f');
    assert("ending_balance"@[0] == 'e' && "ending_balance"@[1] == 'n');
    assert("balance"@[0] == 'b' && "balance"@[1] == 'a');
    assert("expectancy"@[0] == 'e' && "expectancy"@[1] == 'x');
}

/// A metric is what its name says: its value is the field of a summary that has its name, and what
/// the other fields hold does not matter. Short names stand for the same.
pub proof fn law_metrics_read_the_field_of_their_name<N>(s: Summary<N>)
    ensures
        Metric::named("pnl_total"@) matches Some(m) && m.title() == "pnl_total"@ && m.of(s) == s.pnl_total,
        Metric::named("sharpe"@) matches Some(m) && m.title() == "sharpe"@ && m.of(s) == s.sharpe,
        Metric::named("sortino"@) matches Some(m) && m.title() == "sortino"@ && m.of(s) == s.sortino,
        Metric::named("calmar_ratio"@) matches Some(m) && m.title() == "calmar_ratio"@ && m.of(s) == s.calmar_ratio,
        Metric::named("win_rate"@) matches Some(m) && m.title() == "win_rate"@ && m.of(s) == s.win_rate,
        Metric::named("profit_factor"@) matches Some(m) && m.title() == "profit_factor"@ && m.of(s) == s.profit_factor,
        Metric::named("ending_balance"@) matches Some(m) && m.title() == "ending_balance"@ && m.of(s) == s.ending_balance,
        Metric::named("expectancy"@) matches Some(m) && m.title() == "expectancy"@ && m.of(s) == s.expectancy,
        Metric::named("pnl"@) matches Some(m) && m.title() == "pnl_total"@ && m.of(s) == s.pnl_total,
        Metric::named("calmar"@) matches Some(m) && m.title() == "calmar_ratio"@ && m.of(s) == s.calmar_ratio,
        Metric::named("winrate"@) matches Some(m) && m.title() == "win_rate"@ && m.of(s) == s.win_rate,
        Metric::named("pf"@) matches Some(m) && m.title() == "profit_factor"@ && m.of(s) == s.profit_factor,
        Metric::named("balance"@) matches Some(m) && m.title() == "ending_balance"@ && m.of(s) == s.ending_balance,
{
    law_metric_names_read_back(Metric::PnlTotal);
    law_metric_names_read_back(Metric::Sharpe);
    law_metric_names_read_back(Metric::Sortino);
    law_metric_names_read_back(Metric::Calmar);
    law_metric_names_read_back(Metric::WinRate);
    law_metric_names_read_back(Metric::ProfitFactor);
    law_metric_names_read_back(Metric::EndingBalance);
    law_metric_names_read_back(Metric::Expectancy);
    reveal_strlit("pnl_total");
    reveal_strlit("sharpe");
    reveal_strlit("sortino");
    reveal_strlit("calmar_ratio");
    reveal_strlit("win_rate");
    reveal_strlit("profit_factor");
    reveal_strlit("ending_balance");
    reveal_strlit("expectancy");
    reveal_strlit("pnl");
    reveal_strlit("calmar");
    reveal_strlit("winrate");
    reveal_strlit("pf");
    reveal_strlit("balance");
    assert("pnl_total"@[0] == 'p' && "pnl_total"@[1] == 'n');
    assert("pnl"@[0] == 'p' && "pnl"@[1] == 'n' && "pnl"@.len() == 3);
    assert("sharpe"@[0] == 's' && "sortino"@[0] == 's');
    assert("calmar_ratio"@[0] == 'c' && "calmar"@[0] == 'c');
    assert("win_rate"@[0] == 'w' && "winrate"@[0] == 'w');
    assert("profit_factor"@[0] == 'p' && "profit_factor"@[1] == 'r');
    assert("pf"@[0] == 'p' && "pf"@[1] == 'f');
    assert("ending_balance"@[0] == 'e' && "ending_balance"@[1] == 'n');
    assert("balance"@[0] == 'b');
    assert("expectancy"@[0] == 'e' && "expectancy"@[1] == 'x');
}

/// Two summaries that agree in the field of a metric's name have the same value of it, and two that
/// do not have different ones.
pub proof fn law_metrics_tell_summaries_apart<N>(a: Summary<N>, b: Summary<N>)
    ensures
        Metric::PnlTotal.of(a) == Metric::PnlTotal.of(b) <==> a.pnl_total == b.pnl_total,
        Metric::Sharpe.of(a) == Metric::Sharpe.of(b) <==> a.sharpe == b.sharpe,
        Metric::Sortino.of(a) == Metric::Sortino.of(b) <==> a.sortino == b.sortino,
        Metric::Calmar.of(a) == Metric::Calmar.of(b) <==> a.calmar_ratio == b.calmar_ratio,
        Metric::WinRate.of(a) == Metric::WinRate.of(b) <==> a.win_rate == b.win_rate,
        Metric::ProfitFactor.of(a) == Metric::ProfitFactor.of(b) <==> a.profit_factor
            == b.profit_factor,
        Metric::EndingBalance.of(a) == Metric::EndingBalance.of(b) <==> a.ending_balance
            == b.ending_balance,
        Metric::Expectancy.of(a) == Metric::Expectancy.of(b) <==> a.expectancy == b.expectancy,
{
}

impl Default for Metric {
    fn default() -> (r: Metric)
        ensures
            r == Metric::PnlTotal,
    {
        Metric::PnlTotal
    }
}

/// Whether a value is a number: it equals itself.
pub open spec fn is_number<N: Number>(x: N) -> bool {
    x.equals(x)
}

/// Where the best of some values stands, the first of several, and the best itself. What is no
/// number counts only where there is nothing else: the place is that of the first value then, and
/// there is no best.
pub open spec fn best_of<N: Number>(values: Seq<N>) -> (int, Option<N>)
    decreases values.len(),
{
    if values.len() == 0 {
        (0, None)
    } else {
        let x = values.last();
        match best_of(values.drop_last()) {
            (at, Some(best)) => if is_number(x) && best.below(x) {
                (values.len() - 1, Some(x))
            } else {
                (at, Some(best))
            },
            (at, None) => if is_number(x) {
                (values.len() - 1, Some(x))
            } else {
                (at, None)
            },
        }
    }
}

/// What each result says of a metric.
pub open spec fn scores<N>(results: Seq<(Combo<N>, Summary<N>)>, metric: Metric) -> Seq<N> {
    results.map_values(|r: (Combo<N>, Summary<N>)| metric.of(r.1))
}

/// Where the best result stands, the first of several; none among none.
pub fn best_index<N: Number>(results: &[(Combo<N>, Summary<N>)], metric: Metric) -> (r: Option<
    usize,
>)
    ensures
        match r {
            Some(i) => results@.len() > 0 && i == best_of(scores(results@, metric)).0,
            None => results@.len() == 0,
        },
{
    let ghost all = scores(results@, metric);
    let n: usize = results.len();
    if n == 0 {
        return None;
    }
    let mut at: usize = 0;
    let mut best: Option<N> = None;
    let mut i: usize = 0;
    while i < n
        invariant
            i <= n,
            n == results@.len(),
            all == scores(results@, metric),
            (at as int, best) == best_of(all.take(i as int)),
        decreases n - i,
    {
        proof {
            assert(all.take(i + 1).drop_last() =~= all.take(i as int));
            assert(all.take(i + 1).last() == metric.of(results@[i as int].1));
        }
        let v = metric.value(&results[i].1);
        if v.is_equal(v) {
            let better: bool = match best {
                Some(b) => b.is_below(v),
                None => true,
            };
            if better {
                best = Some(v);
                at = i;
            }
        }
        i += 1;
    }
    proof {
        assert(all.take(n as int) =~= all);
    }
    Some(at)
}

/// No result of a sweep is better than the one that is picked: with numbers of six decimals, none has
/// a higher value of the metric, and none before it has as high a one.
pub proof fn law_the_best_result_is_picked(
    results: Seq<(Combo<Fixed>, Summary<Fixed>)>,
    metric: Metric,
    j: int,
)
    requires
        0 <= j < results.len(),
    ensures
        ({
            let at = best_of(scores(results, metric)).0;
            &&& 0 <= at < results.len()
            &&& metric.of(results[j].1).units <= metric.of(results[at].1).units
            &&& j < at ==> metric.of(results[j].1).units < metric.of(results[at].1).units
        }),
{
    let values = scores(results, metric);
    assert(numbers_ordered(values));
    law_best_is_a_number(values);
    law_nothing_is_better(values, j);
}

/// The numbers among some values are ordered as numbers should be: no two are below one another,
/// and what lies between two numbers is above the one or below the other.
pub open spec fn numbers_ordered<N: Number>(values: Seq<N>) -> bool {
    &&& forall|i: int, j: int|
        0 <= i < values.len() && 0 <= j < values.len() && is_number(values[i]) && is_number(
            values[j],
        ) && (#[trigger] values[i]).below(#[trigger] values[j]) ==> !values[j].below(values[i])
    &&& forall|i: int, j: int, k: int|
        0 <= i < values.len() && 0 <= j < values.len() && 0 <= k < values.len() && is_number(
            values[i],
        ) && is_number(values[j]) && is_number(values[k]) && (#[trigger] values[i]).below(
            #[trigger] values[k],
        ) ==> values[i].below(#[trigger] values[j]) || values[j].below(values[k])
}

/// The place of the best lies among the values. What stands there is a number, and the best,
/// unless there is no number: it is the first place then.
pub proof fn law_best_is_a_number<N: Number>(values: Seq<N>)
    requires
        values.len() > 0,
    ensures
        0 <= best_of(values).0 < values.len(),
        match best_of(values).1 {
            Some(best) => best == values[best_of(values).0] && is_number(best),
            None => best_of(values).0 == 0 && forall|j: int|
                0 <= j < values.len() ==> !is_number(#[trigger] values[j]),
        },
    decreases values.len(),
{
    reveal_with_fuel(best_of, 2);
    let rest = values.drop_last();
    if values.len() > 1 {
        law_best_is_a_number(rest);
        assert forall|j: int| 0 <= j < values.len() && best_of(values).1 is None implies !is_number(
            #[trigger] values[j],
        ) by {
            if j < rest.len() {
                assert(rest[j] == values[j]);
            }
        }
    }
}

/// No number is better than the best one, and of several equal ones the best is the first: every
/// number before it is worse.
pub proof fn law_nothing_is_better<N: Number>(values: Seq<N>, j: int)
    requires
        numbers_ordered(values),
        0 <= j < values.len(),
        is_number(values[j]),
    ensures
        best_of(values).1 is Some,
        !best_of(values).1->0.below(values[j]),
        j < best_of(values).0 ==> values[j].below(best_of(values).1->0),
    decreases values.len(),
{
    law_best_is_a_number(values);
    let rest = values.drop_last();
    let x = values.last();
    let n = values.len() - 1;
    if rest.len() > 0 {
        law_best_is_a_number(rest);
        assert forall|k: int| 0 <= k < rest.len() implies rest[k] == values[k] by {}
        assert(numbers_ordered(rest));
        let at = best_of(rest).0;
        if j < n {
            law_nothing_is_better(rest, j);
            assert(rest[at] == values[at]);
            let best = values[at];
            assert(!best.below(values[j]));
            if is_number(x) && best.below(x) {
                assert(values[at].below(values[n]));
                assert(values[at].below(values[j]) || values[j].below(values[n]));
                assert(values[j].below(values[n]));
            }
        } else if best_of(rest).1 is Some && values[at].below(x) {
            assert(values[at].below(values[n]));
            if values[n].below(values[n]) {
                assert(!values[n].below(values[n]));
            }
        }
    }
    if j == n && best_of(values).0 == n {
        if values[n].below(values[n]) {
            assert(!values[n].below(values[n]));
        }
    }
}

/// A source of strategies, by name and parameters.
pub trait StrategyBuilder<N: Analytic> {
    type Built: Strategy<N>;

    /// Whether there is a strategy of a name.
    open spec fn knows(&self, name: Seq<char>) -> bool {
        arbitrary()
    }

    /// Whether a name and parameters can make a strategy. Of a source that does not say so, anything
    /// is possible.
    open spec fn can_make(
        &self,
        name: Seq<char>,
        params: Seq<(Seq<char>, N)>,
        strat: Self::Built,
    ) -> bool {
        true
    }

    /// Makes a strategy; nothing where there is none of the name.
    fn build(&self, name: &str, params: &StrMap<N>) -> (r: Option<Self::Built>)
        ensures
            r is Some == self.knows(name@),
            r is Some ==> self.can_make(name@, params.listing(), r->0),
    ;
}

/// The strategies that come with the library.
#[derive(Debug, Clone, Copy, PartialEq, Eq)]
pub struct Builtins;

impl<N: Analytic> StrategyBuilder<N> for Builtins {
    type Built = Noop;

    open spec fn knows(&self, name: Seq<char>) -> bool {
        name == "noop"@
    }

    open spec fn can_make(
        &self,
        name: Seq<char>,
        params: Seq<(Seq<char>, N)>,
        strat: Noop,
    ) -> bool {
        strat == Noop
    }

    fn build(&self, name: &str, _params: &StrMap<N>) -> (r: Option<Noop>) {
        if same_text(name, "noop") {
            Some(Noop)
        } else {
            None
        }
    }
}

/// A summary is that of a run of a strategy over some events, from a new engine to an end that it
/// can lead to.
#[verifier::opaque]
pub open spec fn run_summary<N: Analytic, S: Strategy<N>>(
    events: Seq<EventView<N>>,
    cfg: BacktestConfig<N>,
    files: FilesView,
    strat: S,
    s: Summary<N>,
) -> bool {
    exists|start: EngineView<N>, end: EngineView<N>, later: S|
        opened(cfg, files, start) && #[trigger] can_end(
            start,
            strat,
            events,
            cfg.flatten_at_end,
            end,
            later,
        ) && sums_up(s, end.ctx.portfolio, cfg)
}

/// A summary is that of a run of the strategy that a name and parameters make.
pub open spec fn made_summary<N: Analytic, B: StrategyBuilder<N>>(
    events: Seq<EventView<N>>,
    cfg: BacktestConfig<N>,
    files: FilesView,
    builder: B,
    name: Seq<char>,
    params: Seq<(Seq<char>, N)>,
    s: Summary<N>,
) -> bool {
    exists|strat: B::Built| #[trigger]
        builder.can_make(name, params, strat) && run_summary(events, cfg, files, strat, s)
}

/// Runs a strategy over events, and returns the summary.
pub fn run_one<N: Analytic, S: Strategy<N>>(
    events: &[MarketEvent<N>],
    base_cfg: &BacktestConfig<N>,
    files: &RunFiles,
    strat: &mut S,
) -> (r: Summary<N>)
    ensures
        run_summary(event_views(events@), *base_cfg, files@, *old(strat), r),
{
    let engine = Engine::with_files(base_cfg, files);
    let report = engine.run(events, strat, base_cfg);
    proof {
        reveal(run_summary);
    }
    report.summary
}

/// An output is that of a run of the strategy that a name and parameters make, from a new engine to
/// an end that it can lead to.
pub open spec fn made_output<N: Analytic, B: StrategyBuilder<N>>(
    events: Seq<EventView<N>>,
    cfg: BacktestConfig<N>,
    files: FilesView,
    builder: B,
    name: Seq<char>,
    params: Seq<(Seq<char>, N)>,
    out: RunOutput<N>,
) -> bool {
    exists|start: EngineView<N>, strat: B::Built, end: EngineView<N>, later: B::Built|
        builder.can_make(name, params, strat) && opened(cfg, files, start) && #[trigger] can_end(
            start,
            strat,
            events,
            cfg.flatten_at_end,
            end,
            later,
        ) && out.shows(end, later.label(), cfg)
}

/// Runs the strategy that a name and parameters make. There is no output where there is no strategy
/// of the name.
pub fn run_made<N: Analytic, B: StrategyBuilder<N>>(
    events: &[MarketEvent<N>],
    cfg: &BacktestConfig<N>,
    files: &RunFiles,
    builder: &B,
    strategy: &str,
    params: &StrMap<N>,
) -> (r: Option<RunOutput<N>>)
    ensures
        match r {
            Some(out) => builder.knows(strategy@) && made_output(
                event_views(events@),
                *cfg,
                files@,
                *builder,
                strategy@,
                params.listing(),
                out,
            ),
            None => !builder.knows(strategy@),
        },
{
    match builder.build(strategy, params) {
        Some(strat) => {
            let mut s = strat;
            let engine = Engine::with_files(cfg, files);
            Some(engine.run_collecting(events, &mut s, cfg))
        },
        None => None,
    }
}

/// Runs a strategy over the same events with every combination of parameters. The results stand in
/// the order of the combinations. There are none where there is no strategy of the name.
pub fn run_grid<N: Analytic, B: StrategyBuilder<N>>(
    events: &[MarketEvent<N>],
    base_cfg: &BacktestConfig<N>,
    files: &RunFiles,
    builder: &B,
    strategy: &str,
    combos: &[Combo<N>],
) -> (r: Option<Vec<(Combo<N>, Summary<N>)>>)
    ensures
        match r {
            Some(results) => {
                &&& results@.len() == combos@.len()
                &&& combos@.len() > 0 ==> builder.knows(strategy@)
                &&& forall|i: int|
                    0 <= i < results@.len() ==> (#[trigger] results@[i]).0@ == combos@[i]@
                        && made_summary(
                        event_views(events@),
                        *base_cfg,
                        files@,
                        *builder,
                        strategy@,
                        combos@[i]@,
                        results@[i].1,
                    )
            },
            None => combos@.len() > 0 && !builder.knows(strategy@),
        },
{
    let mut results: Vec<(Combo<N>, Summary<N>)> = Vec::new();
    let n: usize = combos.len();
    let mut i: usize = 0;
    while i < n
        invariant
            i <= n,
            n == combos@.len(),
            i > 0 ==> builder.knows(strategy@),
            results@.len() == i,
            forall|j: int|
                0 <= j < i ==> (#[trigger] results@[j]).0@ == combos@[j]@ && made_summary(
                    event_views(events@),
                    *base_cfg,
                    files@,
                    *builder,
                    strategy@,
                    combos@[j]@,
                    results@[j].1,
                ),
        decreases n - i,
    {
        let params = combos[i].as_strategy_params();
        match builder.build(strategy, &params) {
            Some(strat) => {
                let mut s = strat;
                let summary = run_one(events, base_cfg, files, &mut s);
                proof {
                    assert(builder.can_make(strategy@, combos@[i as int]@, strat));
                }
                results.push((combos[i].copy(), summary));
            },
            None => {
                return None;
            },
        }
        i += 1;
    }
    Some(results)
}

/// Where a part of a timeline begins: all parts have the same size, but that the first ones have
/// one more.
pub open spec fn part_start(len: nat, parts: nat, i: nat) -> nat {
    let extra = len % parts;
    i * (len / parts) + if i < extra {
        i
    } else {
        extra
    }
}

/// How many parts are made: at least one.
pub open spec fn part_count(n: usize) -> nat {
    if n < 1 {
        1
    } else {
        n as nat
    }
}

proof fn lemma_part_start(len: nat, parts: nat, i: nat)
    requires
        parts > 0,
        i < parts,
    ensures
        part_start(len, parts, 0) == 0,
        part_start(len, parts, parts) == len,
        part_start(len, parts, i + 1) == part_start(len, parts, i) + len / parts + if i < len
            % parts {
            1nat
        } else {
            0
        },
        part_start(len, parts, i + 1) <= len,
{
    let base = len / parts;
    let extra = len % parts;
    lemma_fundamental_div_mod(len as int, parts as int);
    lemma_mod_bound(len as int, parts as int);
    assert(0 * base == 0) by (nonlinear_arith);
    assert((i + 1) * base == i * base + base) by (nonlinear_arith);
    assert((i + 1) * base <= parts * base) by (nonlinear_arith)
        requires
            i + 1 <= parts,
            base >= 0,
    ;
    assert(parts * base + extra == len);
}

/// Cuts the numbers below `len` into parts that follow one another, of sizes that differ by one at
/// most, the larger ones first.
pub fn split_segments(len: usize, n: usize) -> (r: Vec<(usize, usize)>)
    ensures
        r@.len() == part_count(n),
        forall|i: int|
            0 <= i < r@.len() ==> (#[trigger] r@[i]).0 == part_start(
                len as nat,
                part_count(n),
                i as nat,
            ) && r@[i].1 == part_start(len as nat, part_count(n), (i + 1) as nat),
{
    let parts: usize = if n < 1 {
        1
    } else {
        n
    };
    let base: usize = len / parts;
    let extra: usize = len % parts;
    let mut ranges: Vec<(usize, usize)> = Vec::new();
    let mut start: usize = 0;
    let mut i: usize = 0;
    proof {
        lemma_part_start(len as nat, parts as nat, 0);
    }
    while i < parts
        invariant
            parts > 0,
            parts == part_count(n),
            i <= parts,
            base == len / parts,
            extra == len % parts,
            start == part_start(len as nat, parts as nat, i as nat),
            ranges@.len() == i,
            forall|j: int|
                0 <= j < i ==> (#[trigger] ranges@[j]).0 == part_start(
                    len as nat,
                    parts as nat,
                    j as nat,
                ) && ranges@[j].1 == part_start(len as nat, parts as nat, (j + 1) as nat),
        decreases parts - i,
    {
        proof {
            lemma_part_start(len as nat, parts as nat, i as nat);
        }
        let end: usize = start + base + if i < extra {
            1
        } else {
            0
        };
        ranges.push((start, end));
        start = end;
        i += 1;
    }
    ranges
}

/// The parts of a timeline tile it: the first begins at 0, each begins where the one before ends,
/// the last ends at the end, and no two sizes differ by more than one.
pub proof fn law_parts_tile(len: nat, parts: nat, i: nat)
    requires
        parts > 0,
        i < parts,
    ensures
        part_start(len, parts, 0) == 0,
        part_start(len, parts, parts) == len,
        part_start(len, parts, i) <= part_start(len, parts, i + 1) <= len,
        ({
            let size = part_start(len, parts, i + 1) - part_start(len, parts, i);
            size == len / parts || size == len / parts + 1
        }),
{
    lemma_part_start(len, parts, i);
}

/// The last axis of a grid runs fastest: to add one to the number of a combination changes its
/// value alone, as long as it has one more.
pub proof fn law_last_axis_runs_fastest<N>(axes: Seq<AxisView<N>>, number: nat)
    requires
        axes.len() > 0,
        axes.last().values.len() > 0,
        number % axes.last().values.len() + 1 < axes.last().values.len(),
    ensures
        ({
            let n = axes.last().values.len();
            &&& (number + 1) / n == number / n
            &&& (number + 1) % n == number % n + 1
        }),
{
    let n = axes.last().values.len() as int;
    let k = number as int;
    lemma_fundamental_div_mod(k, n);
    lemma_fundamental_div_mod_converse(k + 1, n, k / n, k % n + 1);
}

/// Axes with names of their own.
pub open spec fn distinct_axes<N>(axes: Seq<AxisView<N>>) -> bool {
    forall|i: int, j: int|
        0 <= i < j < axes.len() ==> (#[trigger] axes[i]).name != (#[trigger] axes[j]).name
}

/// A place on each of some axes.
pub open spec fn places<N>(axes: Seq<AxisView<N>>, choice: Seq<nat>) -> bool {
    &&& choice.len() == axes.len()
    &&& forall|i: int| 0 <= i < axes.len() ==> (#[trigger] choice[i]) < axes[i].values.len()
}

/// The number of the combination of some places: the last axis counts ones.
pub open spec fn number_of_places<N>(axes: Seq<AxisView<N>>, choice: Seq<nat>) -> nat
    decreases axes.len(),
{
    if axes.len() == 0 {
        0
    } else {
        number_of_places(axes.drop_last(), choice.drop_last()) * axes.last().values.len()
            + choice.last()
    }
}

proof fn lemma_places_before<N>(axes: Seq<AxisView<N>>, choice: Seq<nat>)
    requires
        places(axes, choice),
        distinct_axes(axes),
        axes.len() > 0,
    ensures
        places(axes.drop_last(), choice.drop_last()),
        distinct_axes(axes.drop_last()),
        choice.last() < axes.last().values.len(),
        forall|i: int|
            0 <= i < axes.len() - 1 ==> (#[trigger] axes.drop_last()[i]).name != axes.last().name,
{
    let (a, c) = (axes.drop_last(), choice.drop_last());
    assert(choice.last() == choice[axes.len() - 1]);
    assert forall|i: int| 0 <= i < a.len() implies (#[trigger] c[i]) < a[i].values.len() by {
        assert(c[i] == choice[i]);
    }
    assert forall|i: int| 0 <= i < axes.len() - 1 implies (#[trigger] a[i]).name
        != axes.last().name by {
        assert(axes[i].name != axes[axes.len() - 1].name);
    }
}

proof fn lemma_picks<N>(
    done: Seq<(Seq<char>, N)>,
    axes: Seq<AxisView<N>>,
    choice: Seq<nat>,
    name: Seq<char>,
)
    requires
        places(axes, choice),
        distinct_axes(axes),
    ensures
        ({
            let r = picked(done, axes, number_of_places(axes, choice));
            &&& forall|i: int|
                0 <= i < axes.len() ==> entry(r, (#[trigger] axes[i]).name) == Some(
                    axes[i].values[choice[i] as int],
                )
            &&& (forall|i: int| 0 <= i < axes.len() ==> (#[trigger] axes[i]).name != name) ==> entry(
                r,
                name,
            ) == entry(done, name)
        }),
    decreases axes.len(),
{
    if axes.len() > 0 {
        lemma_places_before(axes, choice);
        let a = axes.last();
        let n = a.values.len();
        let before = number_of_places(axes.drop_last(), choice.drop_last());
        let number = number_of_places(axes, choice);
        let last = choice.last();
        assert(number == before * n + last);
        lemma_fundamental_div_mod_converse(number as int, n as int, before as int, last as int);
        let next = put_entry(done, a.name, a.values[last as int]);
        let rest = axes.drop_last();
        let r = picked(next, rest, before);
        assert(r == picked(done, axes, number));
        lemma_picks(next, rest, choice.drop_last(), a.name);
        law_put_then_find(done, a.name, a.values[last as int], a.name);
        assert forall|i: int| 0 <= i < axes.len() implies entry(r, (#[trigger] axes[i]).name)
            == Some(axes[i].values[choice[i] as int]) by {
            if i < rest.len() {
                assert(rest[i] == axes[i]);
                assert(choice.drop_last()[i] == choice[i]);
            } else {
                assert(axes[i] == a);
            }
        }
        if forall|i: int| 0 <= i < axes.len() ==> (#[trigger] axes[i]).name != name {
            assert(axes[axes.len() - 1].name != name);
            assert forall|i: int| 0 <= i < rest.len() implies (#[trigger] rest[i]).name != name by {
                assert(rest[i] == axes[i]);
            }
            lemma_picks(next, rest, choice.drop_last(), name);
            law_put_then_find(done, a.name, a.values[last as int], name);
        }
    }
}

proof fn lemma_number_is_small<N>(axes: Seq<AxisView<N>>, choice: Seq<nat>, total: nat)
    requires
        places(axes, choice),
        distinct_axes(axes),
        grid_size(axes) == Some(total),
    ensures
        number_of_places(axes, choice) < total,
    decreases axes.len(),
{
    if axes.len() > 0 {
        lemma_places_before(axes, choice);
        let rest = grid_size(axes.drop_last())->0;
        lemma_number_is_small(axes.drop_last(), choice.drop_last(), rest);
        let before = number_of_places(axes.drop_last(), choice.drop_last());
        let n = axes.last().values.len();
        let last = choice.last();
        assert(before * n + last < rest * n) by (nonlinear_arith)
            requires
                before + 1 <= rest,
                last < n,
        ;
    }
}

/// A grid holds every combination: whatever value is picked on each axis, one of the combinations has
/// those values under those names, and no others.
pub proof fn law_grids_hold_every_combination<N>(
    axes: Seq<AxisView<N>>,
    choice: Seq<nat>,
    name: Seq<char>,
)
    requires
        axes.len() > 0,
        distinct_axes(axes),
        places(axes, choice),
        grid_of(axes) is Ok,
    ensures
        ({
            let grid = grid_of(axes)->Ok_0;
            let k = number_of_places(axes, choice) as int;
            &&& 0 <= k < grid.len()
            &&& forall|i: int|
                0 <= i < axes.len() ==> entry(grid[k], (#[trigger] axes[i]).name) == Some(
                    axes[i].values[choice[i] as int],
                )
            &&& (forall|i: int| 0 <= i < axes.len() ==> (#[trigger] axes[i]).name != name)
                ==> entry(grid[k], name) is None
        }),
{
    let total = grid_size(axes)->0;
    lemma_number_is_small(axes, choice, total);
    lemma_picks(Seq::empty(), axes, choice, name);
}

/// A grid has as many combinations as the counts of the values multiply to: one axis more multiplies
/// them by the count of its values. A grid with more than the cap is refused.
pub proof fn law_grid_sizes_multiply<N>(axes: Seq<AxisView<N>>, a: AxisView<N>)
    requires
        grid_of(axes.push(a)) is Ok,
        axes.len() > 0 ==> grid_of(axes) is Ok,
    ensures
        grid_of(axes.push(a))->Ok_0.len() == a.values.len() * if axes.len() == 0 {
            1
        } else {
            grid_of(axes)->Ok_0.len()
        },
        grid_of(axes.push(a))->Ok_0.len() <= 5000,
{
    assert(axes.push(a).drop_last() =~= axes);
    assert(axes.push(a).last() == a);
    let n = if axes.len() == 0 {
        1
    } else {
        grid_of(axes)->Ok_0.len()
    };
    assert(grid_size(axes) == Some(n));
    assert(n * a.values.len() == a.values.len() * n) by (nonlinear_arith);
}

/// The values of an axis are the numbers that its parts write, in their order; a part of nothing but
/// space is passed over, and one that writes no number refuses them all.
pub proof fn law_values_stand_in_order<N: Number>(parts: Seq<Seq<char>>, part: Seq<char>)
    ensures
        ({
            let before = values_of::<N>(parts);
            let after = values_of::<N>(parts.push(part));
            &&& before is Err ==> after is Err
            &&& before is Ok && trimmed(part).len() == 0 ==> after == before
            &&& before is Ok && trimmed(part).len() > 0 ==> match N::written(trimmed(part)) {
                Some(v) => after is Ok && after->Ok_0 == before->Ok_0.push(v),
                None => after is Err && after->Err_0 == trimmed(part),
            }
        }),
        values_of::<N>(Seq::empty()) is Ok && values_of::<N>(Seq::empty())->Ok_0.len() == 0,
{
    assert(parts.push(part).drop_last() =~= parts);
}

/// What an axis is read from: its name before the first `=`, its values behind it, between commas. It
/// has a name and at least one value.
pub proof fn law_axes_are_names_and_values<N: Number>(raw: Seq<char>)
    ensures
        axis_of::<N>(raw) is Ok ==> {
            let a = axis_of::<N>(raw)->Ok_0;
            &&& split_once_at(raw, '=') matches Some((k, v))
            &&& a.name == trimmed(k)
            &&& a.name.len() > 0
            &&& a.values.len() > 0
            &&& values_of::<N>(split_at_char(v, ',')) == Ok::<Seq<N>, Seq<char>>(a.values)
        },
        split_once_at(raw, '=') matches Some((k, v)) ==> (trimmed(k).len() > 0 && values_of::<N>(
            split_at_char(v, ','),
        ) is Ok && values_of::<N>(split_at_char(v, ','))->Ok_0.len() > 0 ==> axis_of::<N>(raw) is Ok),
        split_once_at(raw, '=') is None ==> axis_of::<N>(raw) is Err,
{
}

} // verus!
