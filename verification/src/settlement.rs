//! Outcomes: what a contract pays at expiry.
use crate::error::{Error, ErrorKind};
use crate::fixed::Fixed;
use crate::foreign::{
    items_say, json_value, lemma_list_says, lemma_object_says, members_say, parse_json, Json,
    JsonView,
};
use crate::json::{as_text, child, get, text_of};
use crate::number::Number;
use crate::strmap::{entry, law_put_then_find, put_entry, StrMap};
use crate::text::{
    ascii_lower, chars_of, same_text, split, split_at_char, split_once, split_once_at, starts,
    texts, to_ascii_lower, trim, trimmed,
};
use vstd::prelude::*;

verus! {

/// How an instrument came out.
#[derive(Debug, Clone, Copy, PartialEq, Eq, Structural)]
pub enum Outcome {
    Yes,
    No,
    Unknown,
}

/// What a contract with an outcome pays, in dollars.
pub open spec fn payout_of<N: Number>(outcome: Outcome) -> Option<N> {
    match outcome {
        Outcome::Yes => Some(N::integer(1)),
        Outcome::No => Some(N::integer(0)),
        Outcome::Unknown => None,
    }
}

impl Outcome {
    /// What a contract with this outcome pays, in dollars; nothing is known of an unknown one.
    pub fn payout<N: Number>(self) -> (r: Option<N>)
        ensures
            r == payout_of::<N>(self),
    {
        match self {
            Outcome::Yes => Some(N::from_int(1)),
            Outcome::No => Some(N::from_int(0)),
            Outcome::Unknown => None,
        }
    }
}

/// The outcomes that are known.
#[derive(Debug, PartialEq)]
pub struct SettlementMap {
    pub outcomes: StrMap<Outcome>,
}

/// The outcome of an instrument.
pub open spec fn outcome_of(known: Seq<(Seq<char>, Outcome)>, instrument: Seq<char>) -> Outcome {
    match entry(known, instrument) {
        Some(o) => o,
        None => Outcome::Unknown,
    }
}

impl View for SettlementMap {
    type V = Seq<(Seq<char>, Outcome)>;

    open spec fn view(&self) -> Seq<(Seq<char>, Outcome)> {
        self.outcomes.listing()
    }
}

impl SettlementMap {
    /// No outcome known.
    pub fn new() -> (r: SettlementMap)
        ensures
            r@ == Seq::<(Seq<char>, Outcome)>::empty(),
    {
        SettlementMap { outcomes: StrMap::new() }
    }

    /// Records an outcome.
    pub fn insert(&mut self, instrument: &str, outcome: Outcome)
        ensures
            final(self)@ == put_entry(old(self)@, instrument@, outcome),
    {
        self.outcomes.insert(instrument.to_owned(), outcome);
    }

    /// The same outcomes once more.
    pub fn copy(&self) -> (r: SettlementMap)
        ensures
            r@ == self@,
    {
        SettlementMap { outcomes: self.outcomes.copied() }
    }

    /// Whether no outcome is known.
    pub fn is_empty(&self) -> (r: bool)
        ensures
            r == (self@.len() == 0),
    {
        self.outcomes.len() == 0
    }

    /// The outcome of an instrument.
    pub fn outcome(&self, instrument: &str) -> (r: Outcome)
        ensures
            r == outcome_of(self@, instrument@),
    {
        match self.outcomes.get(instrument) {
            Some(o) => *o,
            None => Outcome::Unknown,
        }
    }
}

/// The outcome that a word stands for.
pub open spec fn outcome_word(s: Seq<char>) -> Outcome {
    let w = ascii_lower(trimmed(s));
    if w == "yes"@ || w == "1"@ || w == "true"@ {
        Outcome::Yes
    } else if w == "no"@ || w == "0"@ || w == "false"@ {
        Outcome::No
    } else {
        Outcome::Unknown
    }
}

/// Reads an outcome.
pub fn parse_outcome(s: &str) -> (r: Outcome)
    ensures
        r == outcome_word(s@),
{
    let w = to_ascii_lower(trim(s).as_str());
    let w = w.as_str();
    if same_text(w, "yes") || same_text(w, "1") || same_text(w, "true") {
        Outcome::Yes
    } else if same_text(w, "no") || same_text(w, "0") || same_text(w, "false") {
        Outcome::No
    } else {
        Outcome::Unknown
    }
}

/// What some lines list: each one an instrument, a comma and its outcome. A line without a comma or
/// without a known outcome, such as a line of headings, says nothing.
pub open spec fn outcomes_in(lines: Seq<Seq<char>>) -> Seq<(Seq<char>, Outcome)>
    decreases lines.len(),
{
    if lines.len() == 0 {
        Seq::empty()
    } else {
        let known = outcomes_in(lines.drop_last());
        match split_once_at(lines.last(), ',') {
            Some((name, word)) => if outcome_word(word) == Outcome::Unknown {
                known
            } else {
                put_entry(known, trimmed(name), outcome_word(word))
            },
            None => known,
        }
    }
}

impl SettlementMap {
    /// Reads a list of outcomes: lines with an instrument, a comma and `yes` or `no`.
    pub fn from_csv(text: &str) -> (r: SettlementMap)
        ensures
            r@ == outcomes_in(split_at_char(text@, '\n')),
    {
        let lines = split(text, '\n');
        let ghost all = texts(lines@);
        let mut known = SettlementMap::new();
        let n: usize = lines.len();
        let mut i: usize = 0;
        while i < n
            invariant
                i <= n,
                n == lines@.len(),
                all == texts(lines@),
                known@ == outcomes_in(all.take(i as int)),
            decreases n - i,
        {
            proof {
                assert(all.take(i + 1).drop_last() =~= all.take(i as int));
                assert(all.take(i + 1).last() == lines@[i as int]@);
            }
            if let Some((name, word)) = split_once(lines[i].as_str(), ',') {
                match parse_outcome(word.as_str()) {
                    Outcome::Unknown => {},
                    o => {
                        known.insert(trim(name.as_str()).as_str(), o);
                    },
                }
            }
            i += 1;
        }
        assert(all.take(n as int) =~= all);
        known
    }
}

/// The outcome that a JSON value stands for: a word, a truth value, or 1 or 0.
pub open spec fn outcome_value(v: JsonView) -> Outcome {
    match v {
        JsonView::Text(s) => outcome_word(s),
        JsonView::Bool(b) => if b {
            Outcome::Yes
        } else {
            Outcome::No
        },
        JsonView::Number(_, text) => outcome_word(text),
        _ => Outcome::Unknown,
    }
}

fn read_outcome(v: &Json) -> (r: Outcome)
    ensures
        r == outcome_value(v@),
{
    match v {
        Json::Text(s) => parse_outcome(s.as_str()),
        Json::Bool(b) => if *b {
            Outcome::Yes
        } else {
            Outcome::No
        },
        Json::Number(n) => parse_outcome(n.text.as_str()),
        _ => Outcome::Unknown,
    }
}

/// Some outcomes and one more, if it is known.
pub open spec fn with_outcome(
    known: Seq<(Seq<char>, Outcome)>,
    name: Seq<char>,
    outcome: Outcome,
) -> Seq<(Seq<char>, Outcome)> {
    if outcome == Outcome::Unknown {
        known
    } else {
        put_entry(known, trimmed(name), outcome)
    }
}

/// What the fields of an object say: each one is named like an instrument and holds its outcome.
pub open spec fn outcomes_of_fields(fields: Seq<(Seq<char>, JsonView)>) -> Seq<(Seq<char>, Outcome)>
    decreases fields.len(),
{
    if fields.len() == 0 {
        Seq::empty()
    } else {
        with_outcome(
            outcomes_of_fields(fields.drop_last()),
            fields.last().0,
            outcome_value(fields.last().1),
        )
    }
}

/// What the items of a list say: each one holds an `instrument_id` and a `result`. One that lacks
/// either says nothing.
pub open spec fn outcomes_of_items(items: Seq<JsonView>) -> Seq<(Seq<char>, Outcome)>
    decreases items.len(),
{
    if items.len() == 0 {
        Seq::empty()
    } else {
        let known = outcomes_of_items(items.drop_last());
        let item = items.last();
        match (text_of(child(item, "instrument_id"@)), child(item, "result"@)) {
            (Some(name), Some(v)) => with_outcome(known, name, outcome_value(v)),
            _ => known,
        }
    }
}

/// What a JSON value says of outcomes.
pub open spec fn outcomes_of_json(v: JsonView) -> Seq<(Seq<char>, Outcome)> {
    match v {
        JsonView::Object(fields) => outcomes_of_fields(fields),
        JsonView::List(items) => outcomes_of_items(items),
        _ => Seq::empty(),
    }
}

/// What a file of outcomes says: JSON where it begins with a brace or a bracket, else lines.
pub open spec fn outcomes_of_text(text: Seq<char>) -> Result<
    Seq<(Seq<char>, Outcome)>,
    (ErrorKind, Seq<char>),
> {
    let bare = trimmed(text);
    if starts(bare, seq!['{']) || starts(bare, seq!['[']) {
        match json_value(bare) {
            Ok(v) => Ok(outcomes_of_json(v)),
            Err(e) => Err((ErrorKind::BadJson, e)),
        }
    } else {
        Ok(outcomes_in(split_at_char(text, '\n')))
    }
}

impl SettlementMap {
    fn learn(&mut self, name: &str, outcome: Outcome)
        ensures
            final(self)@ == with_outcome(old(self)@, name@, outcome),
    {
        match outcome {
            Outcome::Unknown => {},
            o => {
                self.insert(trim(name).as_str(), o);
            },
        }
    }

    fn from_fields(fields: &Vec<(String, Json)>) -> (r: SettlementMap)
        ensures
            r@ == outcomes_of_fields(members_say(fields@)),
    {
        let ghost said = members_say(fields@);
        let mut known = SettlementMap::new();
        let n: usize = fields.len();
        let mut i: usize = 0;
        while i < n
            invariant
                i <= n,
                n == fields@.len(),
                said == members_say(fields@),
                known@ == outcomes_of_fields(said.take(i as int)),
            decreases n - i,
        {
            proof {
                assert(said.take(i + 1).drop_last() =~= said.take(i as int));
            }
            let outcome = read_outcome(&fields[i].1);
            known.learn(fields[i].0.as_str(), outcome);
            i += 1;
        }
        assert(said.take(n as int) =~= said);
        known
    }

    fn from_items(items: &Vec<Json>) -> (r: SettlementMap)
        ensures
            r@ == outcomes_of_items(items_say(items@)),
    {
        let ghost said = items_say(items@);
        let mut known = SettlementMap::new();
        let n: usize = items.len();
        let mut i: usize = 0;
        while i < n
            invariant
                i <= n,
                n == items@.len(),
                said == items_say(items@),
                known@ == outcomes_of_items(said.take(i as int)),
            decreases n - i,
        {
            proof {
                assert(said.take(i + 1).drop_last() =~= said.take(i as int));
            }
            let name = as_text(get(&items[i], "instrument_id"));
            if let Some(name) = name {
                if let Some(v) = get(&items[i], "result") {
                    let outcome = read_outcome(v);
                    known.learn(name.as_str(), outcome);
                }
            }
            i += 1;
        }
        assert(said.take(n as int) =~= said);
        known
    }

    /// Reads outcomes from a JSON value: an object from instruments to outcomes, or a list of
    /// objects with an `instrument_id` and a `result`.
    pub fn from_json(v: &Json) -> (r: SettlementMap)
        ensures
            r@ == outcomes_of_json(v@),
    {
        match v {
            Json::Object(fields) => {
                proof {
                    lemma_object_says(*fields);
                }
                SettlementMap::from_fields(fields)
            },
            Json::List(items) => {
                proof {
                    lemma_list_says(*items);
                }
                SettlementMap::from_items(items)
            },
            _ => SettlementMap::new(),
        }
    }

    /// Reads a file of outcomes: JSON, or lines with an instrument, a comma and `yes` or `no`.
    pub fn from_text(text: &str) -> (r: Result<SettlementMap, Error>)
        ensures
            match r {
                Ok(known) => outcomes_of_text(text@) == Ok::<
                    Seq<(Seq<char>, Outcome)>,
                    (ErrorKind, Seq<char>),
                >(known@),
                Err(e) => outcomes_of_text(text@) == Err::<
                    Seq<(Seq<char>, Outcome)>,
                    (ErrorKind, Seq<char>),
                >(e@),
            },
    {
        let bare = trim(text);
        let head = chars_of(bare.as_str());
        let is_json: bool = head.len() > 0 && (head[0] == '{' || head[0] == '[');
        proof {
            let s = bare@;
            if s.len() > 0 {
                assert(s.take(1) =~= seq![s[0]]);
                assert(seq!['{'][0] == '{' && seq!['['][0] == '[');
            }
        }
        if is_json {
            match parse_json(bare.as_str()) {
                Ok(v) => Ok(SettlementMap::from_json(&v)),
                Err(e) => Err(Error::new(ErrorKind::BadJson, e)),
            }
        } else {
            Ok(SettlementMap::from_csv(text))
        }
    }
}

impl Default for SettlementMap {
    fn default() -> (r: SettlementMap)
        ensures
            r@ == Seq::<(Seq<char>, Outcome)>::empty(),
    {
        SettlementMap::new()
    }
}

/// A contract pays one dollar where its outcome is yes and nothing where it is no. Of an unknown
/// outcome it is not known what it pays.
pub proof fn law_yes_pays_a_dollar()
    ensures
        payout_of::<Fixed>(Outcome::Yes) matches Some(p) && p.units == 1_000_000,
        payout_of::<Fixed>(Outcome::No) matches Some(p) && p.units == 0,
        payout_of::<Fixed>(Outcome::Unknown) is None,
{
}

/// A word in lower case, without spaces around it, means yes where it is `yes`, `1` or `true`, no
/// where it is `no`, `0` or `false`, and nothing otherwise.
pub proof fn law_words_mean_outcomes(s: Seq<char>)
    requires
        trimmed(s) == s,
        ascii_lower(s) == s,
    ensures
        outcome_word(s) == Outcome::Yes <==> s == seq!['y', 'e', 's'] || s == seq!['1'] || s
            == seq!['t', 'r', 'u', 'e'],
        outcome_word(s) == Outcome::No <==> s == seq!['n', 'o'] || s == seq!['0'] || s
            == seq!['f', 'a', 'l', 's', 'e'],
{
    reveal_strlit("yes");
    reveal_strlit("1");
    reveal_strlit("true");
    reveal_strlit("no");
    reveal_strlit("0");
    reveal_strlit("false");
    assert("yes"@ =~= seq!['y', 'e', 's']);
    assert("1"@ =~= seq!['1']);
    assert("true"@ =~= seq!['t', 'r', 'u', 'e']);
    assert("no"@ =~= seq!['n', 'o']);
    assert("0"@ =~= seq!['0']);
    assert("false"@ =~= seq!['f', 'a', 'l', 's', 'e']);
    assert("no"@.len() == 2);
    assert("false"@.len() == 5);
    assert("0"@[0] == '0' && "1"@[0] == '1');
}

/// A line of a list gives its instrument the outcome that it names, whatever stood before it, and
/// gives none to another one. A line without a comma or without a known outcome changes nothing.
pub proof fn law_later_lines_win(lines: Seq<Seq<char>>, line: Seq<char>, other: Seq<char>)
    ensures
        ({
            let was = outcomes_in(lines);
            let is = outcomes_in(lines.push(line));
            match split_once_at(line, ',') {
                Some((name, word)) => if outcome_word(word) == Outcome::Unknown {
                    is == was
                } else {
                    &&& outcome_of(is, trimmed(name)) == outcome_word(word)
                    &&& other != trimmed(name) ==> outcome_of(is, other) == outcome_of(was, other)
                },
                None => is == was,
            }
        }),
{
    assert(lines.push(line).drop_last() =~= lines);
    if let Some((name, word)) = split_once_at(line, ',') {
        let was = outcomes_in(lines);
        law_put_then_find(was, trimmed(name), outcome_word(word), trimmed(name));
        law_put_then_find(was, trimmed(name), outcome_word(word), other);
    }
}

/// A truth value means yes where it is true and no where it is false; a field of an object gives the
/// instrument of its name the outcome that it holds.
pub proof fn law_fields_name_outcomes(
    fields: Seq<(Seq<char>, JsonView)>,
    name: Seq<char>,
    b: bool,
    other: Seq<char>,
)
    ensures
        ({
            let was = outcomes_of_json(JsonView::Object(fields));
            let is = outcomes_of_json(JsonView::Object(fields.push((name, JsonView::Bool(b)))));
            &&& outcome_of(is, trimmed(name)) == if b {
                Outcome::Yes
            } else {
                Outcome::No
            }
            &&& other != trimmed(name) ==> outcome_of(is, other) == outcome_of(was, other)
        }),
{
    let more = fields.push((name, JsonView::Bool(b)));
    assert(more.drop_last() =~= fields);
    assert(more.last() == (name, JsonView::Bool(b)));
    let was = outcomes_of_fields(fields);
    let o = outcome_value(JsonView::Bool(b));
    law_put_then_find(was, trimmed(name), o, trimmed(name));
    law_put_then_find(was, trimmed(name), o, other);
    assert(outcomes_of_fields(more) == with_outcome(was, name, o));
}

/// An item of a list gives the instrument that it names the outcome that it holds, whatever stood
/// before it; one that lacks either gives none.
pub proof fn law_items_name_outcomes(
    items: Seq<JsonView>,
    item: JsonView,
    name: Seq<char>,
    b: bool,
    other: Seq<char>,
)
    ensures
        ({
            let was = outcomes_of_json(JsonView::List(items));
            let is = outcomes_of_json(JsonView::List(items.push(item)));
            &&& child(item, "instrument_id"@) == Some(JsonView::Text(name)) && child(
                item,
                "result"@,
            ) == Some(JsonView::Bool(b)) ==> {
                &&& outcome_of(is, trimmed(name)) == if b {
                    Outcome::Yes
                } else {
                    Outcome::No
                }
                &&& other != trimmed(name) ==> outcome_of(is, other) == outcome_of(was, other)
            }
            &&& child(item, "instrument_id"@) is None || child(item, "result"@) is None ==> is
                == was
        }),
{
    assert(items.push(item).drop_last() =~= items);
    let was = outcomes_of_items(items);
    let o = outcome_value(JsonView::Bool(b));
    law_put_then_find(was, trimmed(name), o, trimmed(name));
    law_put_then_find(was, trimmed(name), o, other);
}

} // verus!
