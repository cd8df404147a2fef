//! What the generic adapters have in common: the words that they know, and the rows that they
//! make of a source.
use crate::adapters::{
    all_events, date_to_ns_opt, finalize_events, opt_date_ns, opt_text, scale_of, tagged,
    AdapterSpec, PriceScale, Venue,
};
use crate::data::{glob_match, law_patterns_match, matches_glob, stable_order};
use crate::error::{because, Error, ErrorKind};
use crate::fixed::Fixed;
use crate::number::Number;
use crate::text::{concat3, same_text, to_uppercase, uppercase};
use crate::types::{
    delta_views, event_views, trade_views, Action, BookDelta, DeltaView, EventView, MarketEvent,
    Side, TradeEvent, TradeView,
};
use vstd::prelude::*;

verus! {

/// The side that a word names.
pub open spec fn side_named(word: Seq<char>) -> Option<Side> {
    let u = uppercase(word);
    if u == "BUY"@ || u == "BID"@ || u == "YES"@ || u == "B"@ {
        Some(Side::Bid)
    } else if u == "SELL"@ || u == "ASK"@ || u == "NO"@ || u == "S"@ || u == "A"@ {
        Some(Side::Ask)
    } else {
        None
    }
}

/// The side that a word names.
pub fn map_side(s: &str) -> (r: Option<Side>)
    ensures
        r == side_named(s@),
{
    let up = to_uppercase(s);
    let u = up.as_str();
    if same_text(u, "BUY") || same_text(u, "BID") || same_text(u, "YES") || same_text(u, "B") {
        Some(Side::Bid)
    } else if same_text(u, "SELL") || same_text(u, "ASK") || same_text(u, "NO") || same_text(
        u,
        "S",
    ) || same_text(u, "A") {
        Some(Side::Ask)
    } else {
        None
    }
}

/// The action that a word names; an unknown word adds.
pub open spec fn action_named(word: Seq<char>) -> Action {
    let u = uppercase(word);
    if u == "DELETE"@ || u == "DEL"@ || u == "REMOVE"@ {
        Action::Delete
    } else if u == "UPDATE"@ || u == "CHANGE"@ {
        Action::Update
    } else {
        Action::Add
    }
}

/// The action that a word names.
pub fn map_action(s: &str) -> (r: Action)
    ensures
        r == action_named(s@),
{
    let up = to_uppercase(s);
    let u = up.as_str();
    if same_text(u, "DELETE") || same_text(u, "DEL") || same_text(u, "REMOVE") {
        Action::Delete
    } else if same_text(u, "UPDATE") || same_text(u, "CHANGE") {
        Action::Update
    } else {
        Action::Add
    }
}

/// Whether a word says that the side that took liquidity bought YES.
pub open spec fn took_yes(word: Seq<char>) -> bool {
    let u = uppercase(word);
    u == "YES"@ || u == "BUY"@ || u == "BID"@
}

/// Whether a word says that the side that took liquidity bought YES.
pub fn is_yes_taker(s: &str) -> (r: bool)
    ensures
        r == took_yes(s@),
{
    let up = to_uppercase(s);
    let u = up.as_str();
    same_text(u, "YES") || same_text(u, "BUY") || same_text(u, "BID")
}

/// Whether a symbol matches the pattern of a source, if it has one.
pub open spec fn wanted(spec: AdapterSpec, symbol: Seq<char>) -> bool {
    opt_text(spec.instrument) matches Some(pattern) ==> matches_glob(pattern, symbol)
}

/// Whether a symbol matches the pattern of a source, if it has one.
pub fn is_wanted(spec: &AdapterSpec, symbol: &str) -> (r: bool)
    ensures
        r == wanted(*spec, symbol@),
{
    match &spec.instrument {
        Some(p) => glob_match(p.as_str(), symbol),
        None => true,
    }
}

/// The side and the size that a signed number stands for: above 0 a bid, below 0 an ask, of its
/// magnitude.
pub open spec fn signed_side<N: Number>(signed: N) -> (Side, N) {
    (
        if N::integer(0).below(signed) {
            Side::Bid
        } else {
            Side::Ask
        },
        signed.magnitude(),
    )
}

/// The side and the size that a signed number stands for.
pub fn side_of_sign<N: Number>(signed: N) -> (r: (Side, N))
    ensures
        r == signed_side(signed),
{
    let side = if N::from_int(0).is_below(signed) {
        Side::Bid
    } else {
        Side::Ask
    };
    (side, signed.abs())
}

/// What one row of a source is.
#[derive(Debug)]
pub enum Row<N> {
    /// A row to pass over.
    Skip,
    /// A delta, and whether it took the next number of its own for its sequence.
    Delta(BookDelta<N>, bool),
    /// A trade.
    Trade(TradeEvent<N>),
}

/// What a row says.
#[verifier::ext_equal]
pub enum RowView<N> {
    Skip,
    Delta(DeltaView<N>, bool),
    Trade(TradeView<N>),
}

impl<N> View for Row<N> {
    type V = RowView<N>;

    open spec fn view(&self) -> RowView<N> {
        match self {
            Row::Skip => RowView::Skip,
            Row::Delta(d, n) => RowView::Delta(d@, *n),
            Row::Trade(t) => RowView::Trade(t@),
        }
    }
}

/// What the rows so far came to: the deltas, the trades, and the last number that was given to a
/// delta without a sequence.
#[verifier::ext_equal]
pub struct Haul<N> {
    pub deltas: Seq<DeltaView<N>>,
    pub trades: Seq<TradeView<N>>,
    pub numbered: i64,
}

impl<N> Haul<N> {
    /// Before the first row.
    pub open spec fn empty() -> Haul<N> {
        Haul { deltas: Seq::empty(), trades: Seq::empty(), numbered: 0 }
    }

    /// With one more row.
    pub open spec fn with(self, row: RowView<N>) -> Haul<N> {
        match row {
            RowView::Skip => self,
            RowView::Delta(d, own) => Haul {
                deltas: self.deltas.push(d),
                trades: self.trades,
                numbered: if own {
                    self.numbered.wrapping_add(1)
                } else {
                    self.numbered
                },
            },
            RowView::Trade(t) => Haul {
                deltas: self.deltas,
                trades: self.trades.push(t),
                numbered: self.numbered,
            },
        }
    }
}

/// The rows that were collected.
pub struct Collector<N> {
    pub deltas: Vec<BookDelta<N>>,
    pub trades: Vec<TradeEvent<N>>,
    pub numbered: i64,
}

impl<N> View for Collector<N> {
    type V = Haul<N>;

    open spec fn view(&self) -> Haul<N> {
        Haul {
            deltas: delta_views(self.deltas@),
            trades: trade_views(self.trades@),
            numbered: self.numbered,
        }
    }
}

impl<N> Collector<N> {
    /// Nothing collected yet.
    pub fn new() -> (r: Collector<N>)
        ensures
            r@ == Haul::<N>::empty(),
    {
        let r = Collector { deltas: Vec::new(), trades: Vec::new(), numbered: 0 };
        assert(r@ =~= Haul::<N>::empty());
        r
    }

    /// Collects one row.
    pub fn take(&mut self, row: Row<N>)
        ensures
            final(self)@ == old(self)@.with(row@),
    {
        let ghost before = self@;
        match row {
            Row::Skip => {},
            Row::Delta(d, own) => {
                self.deltas.push(d);
                if own {
                    self.numbered = self.numbered.wrapping_add(1);
                }
            },
            Row::Trade(t) => {
                self.trades.push(t);
            },
        }
        assert(self@ =~= before.with(row@));
    }

    /// Makes one stream of what was collected.
    pub fn finish(self, venue: &Venue) -> (r: Vec<MarketEvent<N>>)
        ensures
            stable_order(
                tagged(all_events(self@.deltas, self@.trades), venue@),
                event_views(r@),
            ),
    {
        finalize_events(self.deltas, self.trades, venue)
    }
}

/// What a source is read with: its first time, its first time no longer, and its price unit.
#[derive(Debug, Clone, Copy)]
pub struct Plan {
    pub start: Option<i64>,
    pub end: Option<i64>,
    pub scale: PriceScale,
}

/// What a source is to be read with, or the first failure to settle it.
pub open spec fn plan_of(spec: AdapterSpec) -> Result<Plan, (ErrorKind, Seq<char>)> {
    match opt_date_ns(spec.start) {
        Err(e) => Err(e),
        Ok(start) => match opt_date_ns(spec.end) {
            Err(e) => Err(e),
            Ok(end) => match scale_of(spec.mapping@) {
                Err(e) => Err(
                    (
                        e.0,
                        because("invalid price_scale for adapter '"@ + spec.adapter@ + "'"@, e.1),
                    ),
                ),
                Ok(scale) => Ok(Plan { start, end, scale }),
            },
        },
    }
}

/// Settles what a source is read with.
pub fn plan(spec: &AdapterSpec) -> (r: Result<Plan, Error>)
    ensures
        match r {
            Ok(p) => plan_of(*spec) == Ok::<Plan, (ErrorKind, Seq<char>)>(p),
            Err(e) => plan_of(*spec) == Err::<Plan, (ErrorKind, Seq<char>)>(e@),
        },
{
    let start = match date_to_ns_opt(&spec.start) {
        Ok(t) => t,
        Err(e) => {
            return Err(e);
        },
    };
    let end = match date_to_ns_opt(&spec.end) {
        Ok(t) => t,
        Err(e) => {
            return Err(e);
        },
    };
    match PriceScale::from_mapping(&spec.mapping) {
        Ok(scale) => Ok(Plan { start, end, scale }),
        Err(e) => {
            let head = concat3(
                "invalid price_scale for adapter '",
                spec.adapter.as_str(),
                "'",
            );
            Err(Error::caused(e.kind, head.as_str(), e.message.as_str()))
        },
    }
}

/// A source was read as it should: its events stand in order of time, or its failure is told.
pub open spec fn delivered<N>(
    due: Result<Seq<EventView<N>>, (ErrorKind, Seq<char>)>,
    r: Result<Vec<MarketEvent<N>>, Error>,
) -> bool {
    match r {
        Ok(events) => due matches Ok(evs) && stable_order(evs, event_views(events@)),
        Err(e) => due == Err::<Seq<EventView<N>>, (ErrorKind, Seq<char>)>(e@),
    }
}

/// What a word in upper case names. A buyer's word names a bid, a seller's an ask, and no other word
/// a side; the words of removal delete, those of change update, and any other word adds; the side that
/// took liquidity bought YES where the word says so.
pub proof fn law_words_name_sides_and_actions(word: Seq<char>)
    requires
        uppercase(word) == word,
    ensures
        side_named(word) == Some(Side::Bid) <==> word == seq!['B', 'U', 'Y'] || word == seq!['B', 'I', 'D'] || word == seq!['Y', 'E', 'S'] || word == seq!['B'],
        side_named(word) == Some(Side::Ask) <==> word == seq!['S', 'E', 'L', 'L'] || word == seq!['A', 'S', 'K'] || word == seq!['N', 'O'] || word == seq!['S'] || word == seq!['A'],
        action_named(word) == Action::Delete <==> word == seq!['D', 'E', 'L', 'E', 'T', 'E'] || word == seq!['D', 'E', 'L'] || word == seq!['R', 'E', 'M', 'O', 'V', 'E'],
        action_named(word) == Action::Update <==> word == seq!['U', 'P', 'D', 'A', 'T', 'E'] || word == seq!['C', 'H', 'A', 'N', 'G', 'E'],
        took_yes(word) <==> word == seq!['Y', 'E', 'S'] || word == seq!['B', 'U', 'Y'] || word == seq!['B', 'I', 'D'],
{
    reveal_strlit("BUY");
    reveal_strlit("BID");
    reveal_strlit("YES");
    reveal_strlit("B");
    reveal_strlit("SELL");
    reveal_strlit("ASK");
    reveal_strlit("NO");
    reveal_strlit("S");
    reveal_strlit("A");
    reveal_strlit("DELETE");
    reveal_strlit("DEL");
    reveal_strlit("REMOVE");
    reveal_strlit("UPDATE");
    reveal_strlit("CHANGE");
    assert("BUY"@ =~= seq!['B', 'U', 'Y']);
    assert("BID"@ =~= seq!['B', 'I', 'D']);
    assert("YES"@ =~= seq!['Y', 'E', 'S']);
    assert("B"@ =~= seq!['B']);
    assert("SELL"@ =~= seq!['S', 'E', 'L', 'L']);
    assert("ASK"@ =~= seq!['A', 'S', 'K']);
    assert("NO"@ =~= seq!['N', 'O']);
    assert("S"@ =~= seq!['S']);
    assert("A"@ =~= seq!['A']);
    assert("DELETE"@ =~= seq!['D', 'E', 'L', 'E', 'T', 'E']);
    assert("DEL"@ =~= seq!['D', 'E', 'L']);
    assert("REMOVE"@ =~= seq!['R', 'E', 'M', 'O', 'V', 'E']);
    assert("UPDATE"@ =~= seq!['U', 'P', 'D', 'A', 'T', 'E']);
    assert("CHANGE"@ =~= seq!['C', 'H', 'A', 'N', 'G', 'E']);
    let n = word.len();
    assert("BUY"@.len() == 3 && "B"@.len() == 1 && "SELL"@.len() == 4 && "NO"@.len() == 2);
    assert("ASK"@[0] == 'A' && "BUY"@[0] == 'B' && "BID"@[0] == 'B' && "YES"@[0] == 'Y');
    assert("S"@[0] == 'S' && "A"@[0] == 'A' && "B"@[0] == 'B');
    assert("DELETE"@[0] == 'D' && "DEL"@[0] == 'D' && "REMOVE"@[0] == 'R');
    assert("UPDATE"@[0] == 'U' && "CHANGE"@[0] == 'C');
}

/// Words that differ only in case name the same.
pub proof fn law_case_does_not_matter(a: Seq<char>, b: Seq<char>)
    requires
        uppercase(a) == uppercase(b),
    ensures
        side_named(a) == side_named(b),
        action_named(a) == action_named(b),
        took_yes(a) == took_yes(b),
{
}

/// A signed size above 0 is bid and one below 0 is asked, each for its magnitude.
pub proof fn law_signs_name_sides(signed: Fixed)
    requires
        signed.units > i64::MIN,
    ensures
        signed.units > 0 ==> signed_side(signed).0 == Side::Bid && signed_side(signed).1.units
            == signed.units,
        signed.units < 0 ==> signed_side(signed).0 == Side::Ask && signed_side(signed).1.units
            == -signed.units,
{
}

/// A source without a pattern wants every symbol; one with a pattern wants those that begin with what
/// stands before a closing `%` or `*`, or the one that is the pattern.
pub proof fn law_sources_want_what_matches(spec: AdapterSpec, symbol: Seq<char>)
    ensures
        spec.instrument is None ==> wanted(spec, symbol),
        spec.instrument matches Some(p) ==> (wanted(spec, symbol) <==> if p@.len() > 0 && (p@.last()
            == '%' || p@.last() == '*') {
            p@.len() - 1 <= symbol.len() && forall|i: int|
                0 <= i < p@.len() - 1 ==> symbol[i] == #[trigger] p@[i]
        } else {
            symbol == p@
        }),
{
    if let Some(p) = spec.instrument {
        law_patterns_match(p@, symbol);
    }
}

} // verus!
