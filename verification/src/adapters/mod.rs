//! Venues, and the adapters that bring their data into one stream of events.
use crate::data::{said_at, sort_events, stable_order};
use crate::error::{Error, ErrorKind};
use crate::fixed::{lemma_cut, lemma_cut_multiple, size, Fixed};
use crate::foreign::{date_nanos, parse_date};
use crate::number::{to_i32, to_i32_range, Number};
use crate::strmap::StrMap;
use crate::text::{
    all_ascii, ascii_upper, chars_of, concat3, lemma_first_index, lemma_first_index_unique,
    lowercase, same_text, split_once, split_once_at, starts, starts_with, to_lowercase,
    to_uppercase, trim, trimmed, upper_char, uppercase,
};
use crate::types::{
    delta_views, event_views, law_prices_are_nearest, trade_views, BookDelta, Cents, DeltaView,
    EventView, MarketEvent, TradeEvent, TradeView,
};
use vstd::prelude::*;

pub mod generic_csv;
pub mod generic_ndjson;
pub mod hyperliquid;
pub mod kalshi;
pub mod polymarket;
pub mod profile;
pub mod registry;
pub mod rows;
pub mod template;

pub use registry::{Adapter, AdapterRegistry};

verus! {

// ---- venues ---------------------------------------------------------------------------------

/// A trading venue. Its tag is its name in upper case; `Generic` carries any other tag.
#[derive(Debug, Clone, PartialEq, Eq, PartialOrd, Ord, Hash)]
pub enum Venue {
    /// Kalshi binary event contracts.
    Kalshi,
    /// Polymarket outcome tokens.
    Polymarket,
    /// Hyperliquid perpetuals.
    Hyperliquid,
    /// CME futures and options.
    Cme,
    /// Any other venue.
    Generic(String),
}

/// What a venue is.
#[verifier::ext_equal]
pub enum VenueView {
    Kalshi,
    Polymarket,
    Hyperliquid,
    Cme,
    Generic(Seq<char>),
}

impl View for Venue {
    type V = VenueView;

    open spec fn view(&self) -> VenueView {
        match self {
            Venue::Kalshi => VenueView::Kalshi,
            Venue::Polymarket => VenueView::Polymarket,
            Venue::Hyperliquid => VenueView::Hyperliquid,
            Venue::Cme => VenueView::Cme,
            Venue::Generic(s) => VenueView::Generic(s@),
        }
    }
}

impl VenueView {
    /// The tag of a venue.
    pub open spec fn tag_text(self) -> Seq<char> {
        match self {
            VenueView::Kalshi => "KALSHI"@,
            VenueView::Polymarket => "POLYMARKET"@,
            VenueView::Hyperliquid => "HYPERLIQUID"@,
            VenueView::Cme => "CME"@,
            VenueView::Generic(s) => uppercase(s),
        }
    }

    /// The venue that a tag, in any case, stands for.
    pub open spec fn of_tag(s: Seq<char>) -> VenueView {
        let u = uppercase(s);
        if u == "KALSHI"@ {
            VenueView::Kalshi
        } else if u == "POLYMARKET"@ || u == "POLY"@ {
            VenueView::Polymarket
        } else if u == "HYPERLIQUID"@ || u == "HL"@ {
            VenueView::Hyperliquid
        } else if u == "CME"@ {
            VenueView::Cme
        } else {
            VenueView::Generic(u)
        }
    }

    /// A venue that its own tag leads back to, and whose tag can stand before a colon.
    pub open spec fn canonical(self) -> bool {
        VenueView::of_tag(self.tag_text()) == self && !self.tag_text().contains(':')
    }
}

impl Venue {
    /// The tag of this venue: what stands before the colon of its instruments.
    pub fn tag(&self) -> (r: String)
        ensures
            r@ == self@.tag_text(),
    {
        match self {
            Venue::Kalshi => "KALSHI".to_owned(),
            Venue::Polymarket => "POLYMARKET".to_owned(),
            Venue::Hyperliquid => "HYPERLIQUID".to_owned(),
            Venue::Cme => "CME".to_owned(),
            Venue::Generic(s) => to_uppercase(s.as_str()),
        }
    }

    /// The venue that a tag, in any case, stands for.
    pub fn from_tag(s: &str) -> (r: Venue)
        ensures
            r@ == VenueView::of_tag(s@),
    {
        let u = to_uppercase(s);
        if same_text(u.as_str(), "KALSHI") {
            Venue::Kalshi
        } else if same_text(u.as_str(), "POLYMARKET") || same_text(u.as_str(), "POLY") {
            Venue::Polymarket
        } else if same_text(u.as_str(), "HYPERLIQUID") || same_text(u.as_str(), "HL") {
            Venue::Hyperliquid
        } else if same_text(u.as_str(), "CME") {
            Venue::Cme
        } else {
            Venue::Generic(u)
        }
    }

    /// The venue as a text: its tag.
    pub fn to_text(&self) -> (r: String)
        ensures
            r@ == self@.tag_text(),
    {
        self.tag()
    }

    /// Whether two venues are the same.
    pub fn same(&self, other: &Venue) -> (r: bool)
        ensures
            r == (self@ == other@),
    {
        match (self, other) {
            (Venue::Kalshi, Venue::Kalshi) => true,
            (Venue::Polymarket, Venue::Polymarket) => true,
            (Venue::Hyperliquid, Venue::Hyperliquid) => true,
            (Venue::Cme, Venue::Cme) => true,
            (Venue::Generic(a), Venue::Generic(b)) => same_text(a.as_str(), b.as_str()),
            _ => false,
        }
    }

    /// The same venue once more.
    pub fn copy(&self) -> (r: Venue)
        ensures
            r@ == self@,
    {
        match self {
            Venue::Kalshi => Venue::Kalshi,
            Venue::Polymarket => Venue::Polymarket,
            Venue::Hyperliquid => Venue::Hyperliquid,
            Venue::Cme => Venue::Cme,
            Venue::Generic(s) => Venue::Generic(s.clone()),
        }
    }
}

impl std::str::FromStr for Venue {
    type Err = std::convert::Infallible;

    fn from_str(s: &str) -> (r: Result<Venue, std::convert::Infallible>)
        ensures
            r matches Ok(v) && v@ == VenueView::of_tag(s@),
    {
        Ok(Venue::from_tag(s))
    }
}

/// An instrument of a venue, written `VENUE:symbol`.
#[derive(Debug, Clone, PartialEq, Eq, PartialOrd, Ord, Hash)]
pub struct Instrument {
    pub venue: Venue,
    pub symbol: String,
}

/// What an instrument is.
#[verifier::ext_equal]
pub struct InstrumentView {
    pub venue: VenueView,
    pub symbol: Seq<char>,
}

impl View for Instrument {
    type V = InstrumentView;

    open spec fn view(&self) -> InstrumentView {
        InstrumentView { venue: self.venue@, symbol: self.symbol@ }
    }
}

impl InstrumentView {
    /// How an instrument is written.
    pub open spec fn id_text(self) -> Seq<char> {
        self.venue.tag_text() + seq![':'] + self.symbol
    }

    /// The instrument that a text writes: the venue before its first colon and the symbol after;
    /// without a colon, a symbol of Kalshi.
    pub open spec fn of_id(id: Seq<char>) -> InstrumentView {
        match split_once_at(id, ':') {
            Some((v, s)) => InstrumentView { venue: VenueView::of_tag(v), symbol: s },
            None => InstrumentView { venue: VenueView::Kalshi, symbol: id },
        }
    }
}

impl Instrument {
    /// An instrument of a venue.
    pub fn new(venue: Venue, symbol: &str) -> (r: Instrument)
        ensures
            r@ == (InstrumentView { venue: venue@, symbol: symbol@ }),
    {
        Instrument { venue, symbol: symbol.to_owned() }
    }

    /// How the instrument is written: `VENUE:symbol`.
    pub fn id(&self) -> (r: String)
        ensures
            r@ == self@.id_text(),
    {
        let tag = self.venue.tag();
        proof {
            reveal_strlit(":");
            assert(":"@ =~= seq![':']);
        }
        concat3(tag.as_str(), ":", self.symbol.as_str())
    }

    /// Reads an instrument.
    pub fn parse(id: &str) -> (r: Instrument)
        ensures
            r@ == InstrumentView::of_id(id@),
    {
        match split_once(id, ':') {
            Some((v, sym)) => Instrument::new(Venue::from_tag(v.as_str()), sym.as_str()),
            None => Instrument::new(Venue::Kalshi, id),
        }
    }

    /// Whether a text writes an instrument of the venue.
    pub fn id_is_venue(id: &str, venue: &Venue) -> (r: bool)
        ensures
            r == (InstrumentView::of_id(id@).venue == venue@),
    {
        Instrument::parse(id).venue.same(venue)
    }

    /// The instrument as a text: how it is written.
    pub fn to_text(&self) -> (r: String)
        ensures
            r@ == self@.id_text(),
    {
        self.id()
    }
}

impl std::str::FromStr for Instrument {
    type Err = std::convert::Infallible;

    fn from_str(s: &str) -> (r: Result<Instrument, std::convert::Infallible>)
        ensures
            r matches Ok(i) && i@ == InstrumentView::of_id(s@),
    {
        Ok(Instrument::parse(s))
    }
}

proof fn lemma_upper_fixed(s: Seq<char>)
    requires
        forall|i: int| 0 <= i < s.len() ==> (#[trigger] s[i] as u32) < 128 && !('a' <= s[i] <= 'z'),
    ensures
        uppercase(s) == s,
{
    assert(all_ascii(s));
    assert(ascii_upper(s) =~= s);
}

/// The named venues are canonical: each is what its tag stands for.
pub proof fn law_named_venues_are_canonical(v: VenueView)
    requires
        !(v is Generic),
    ensures
        v.canonical(),
{
    reveal_strlit("KALSHI");
    reveal_strlit("POLYMARKET");
    reveal_strlit("POLY");
    reveal_strlit("HYPERLIQUID");
    reveal_strlit("HL");
    reveal_strlit("CME");
    lemma_upper_fixed("KALSHI"@);
    lemma_upper_fixed("POLYMARKET"@);
    lemma_upper_fixed("HYPERLIQUID"@);
    lemma_upper_fixed("CME"@);
    assert("KALSHI"@.len() == 6 && "POLYMARKET"@.len() == 10 && "POLY"@.len() == 4
        && "HYPERLIQUID"@.len() == 11 && "HL"@.len() == 2 && "CME"@.len() == 3);
}

/// Every venue that an ASCII tag without a colon stands for is canonical.
pub proof fn law_tags_lead_to_canonical_venues(s: Seq<char>)
    requires
        all_ascii(s),
        !s.contains(':'),
    ensures
        VenueView::of_tag(s).canonical(),
{
    let u = uppercase(s);
    match VenueView::of_tag(s) {
        VenueView::Generic(_) => {
            assert forall|i: int| 0 <= i < u.len() implies (#[trigger] u[i] as u32) < 128 && !('a'
                <= u[i] <= 'z') by {
                assert(u[i] == upper_char(s[i]));
                assert((s[i] as u32) < 128);
            }
            lemma_upper_fixed(u);
            assert(!u.contains(':')) by {
                if u.contains(':') {
                    let i = choose|i: int| 0 <= i < u.len() && u[i] == ':';
                    assert(u[i] == upper_char(s[i]));
                    assert(s.contains(s[i]));
                }
            }
        },
        v => {
            law_named_venues_are_canonical(v);
        },
    }
}

/// What is written of an instrument of a canonical venue reads back as that instrument.
pub proof fn law_id_reads_back(i: InstrumentView)
    requires
        i.venue.canonical(),
    ensures
        InstrumentView::of_id(i.id_text()) == i,
{
    let id = i.id_text();
    let tag = i.venue.tag_text();
    let n = tag.len() as int;
    assert(id[n] == ':');
    assert forall|j: int| 0 <= j < n implies id[j] != ':' by {
        assert(id[j] == tag[j]);
        assert(tag.contains(tag[j]));
    }
    lemma_first_index_unique(id, ':', n);
    lemma_first_index(id, ':');
    assert(id.take(n) =~= tag);
    assert(id.skip(n + 1) =~= i.symbol);
}

/// Whether a symbol already carries a venue: the tag of the venue stands before a colon, or what
/// stands there reads as the venue.
pub open spec fn carries(symbol: Seq<char>, venue: VenueView) -> bool {
    ||| starts(symbol, venue.tag_text() + seq![':'])
    ||| symbol.contains(':') && InstrumentView::of_id(symbol).venue == venue
}

/// The id of a symbol under a venue; a symbol that already carries the venue stays as it is.
pub open spec fn retagged(symbol: Seq<char>, venue: VenueView) -> Seq<char> {
    if carries(symbol, venue) {
        symbol
    } else {
        (InstrumentView { venue, symbol }).id_text()
    }
}

/// Tagging twice is tagging once, whatever the venue.
pub proof fn law_retagging_is_idempotent(symbol: Seq<char>, venue: VenueView)
    ensures
        retagged(retagged(symbol, venue), venue) == retagged(symbol, venue),
{
    let id = (InstrumentView { venue, symbol }).id_text();
    let head = venue.tag_text() + seq![':'];
    assert(id.take(head.len() as int) =~= head);
}

/// The id of a symbol under a canonical venue reads as an instrument of that venue.
pub proof fn law_retagged_ids_read_as_the_venue(symbol: Seq<char>, venue: VenueView)
    requires
        venue.canonical(),
    ensures
        InstrumentView::of_id(retagged(symbol, venue)).venue == venue,
{
    if starts(symbol, venue.tag_text() + seq![':']) {
        let tag = venue.tag_text();
        let n = tag.len() as int;
        assert(symbol.take(n + 1)[n] == ':');
        law_id_reads_back(InstrumentView { venue, symbol: symbol.skip(n + 1) });
        assert(symbol =~= tag + seq![':'] + symbol.skip(n + 1)) by {
            assert(symbol =~= symbol.take(n + 1) + symbol.skip(n + 1));
        }
    } else if !carries(symbol, venue) {
        law_id_reads_back(InstrumentView { venue, symbol });
    }
}

fn retag(symbol: &str, venue: &Venue) -> (r: String)
    ensures
        r@ == retagged(symbol@, venue@),
{
    let mut head = venue.tag();
    head.push(':');
    proof {
        assert(head@ =~= venue@.tag_text() + seq![':']);
    }
    if starts_with(&chars_of(symbol), &chars_of(head.as_str())) {
        return symbol.to_owned();
    }
    if let Some((v, _)) = split_once(symbol, ':') {
        if Venue::from_tag(v.as_str()).same(venue) {
            return symbol.to_owned();
        }
    }
    Instrument::new(venue.copy(), symbol).id()
}

/// What events say once their instruments carry the venue.
pub open spec fn tagged<N>(events: Seq<EventView<N>>, venue: VenueView) -> Seq<EventView<N>> {
    events.map_values(|e: EventView<N>| e.with_instrument(retagged(e.inst(), venue)))
}

/// Writes the venue in front of the instrument of each event.
pub fn tag_events_with_venue<N>(events: &mut Vec<MarketEvent<N>>, venue: &Venue)
    ensures
        event_views(final(events)@) == tagged(event_views(old(events)@), venue@),
{
    let ghost before = events@;
    let mut i: usize = 0;
    while i < events.len()
        invariant
            i <= events@.len(),
            events@.len() == before.len(),
            forall|j: int|
                0 <= j < i ==> (#[trigger] events@[j])@ == before[j]@.with_instrument(
                    retagged(before[j]@.inst(), venue@),
                ),
            forall|j: int| i <= j < events@.len() ==> #[trigger] events@[j] == before[j],
        decreases events@.len() - i,
    {
        let id = retag(events[i].instrument(), venue);
        match &mut events[i] {
            MarketEvent::Delta(d) => {
                d.instrument = id;
            },
            MarketEvent::Trade(t) => {
                t.instrument = id;
            },
        }
        i += 1;
    }
    assert(event_views(events@) =~= tagged(event_views(before), venue@));
}

/// Tagging a stream twice is tagging it once, whatever the venue.
pub proof fn law_tagging_is_idempotent<N>(events: Seq<EventView<N>>, venue: VenueView)
    ensures
        tagged(tagged(events, venue), venue) == tagged(events, venue),
{
    let once = tagged(events, venue);
    let twice = tagged(once, venue);
    assert forall|i: int| 0 <= i < events.len() implies twice[i] == once[i] by {
        law_retagging_is_idempotent(events[i].inst(), venue);
    }
    assert(twice =~= once);
}

/// Once a stream carries a canonical venue, every instrument in it reads as one of that venue.
pub proof fn law_tagged_instruments_read_as_the_venue<N>(
    events: Seq<EventView<N>>,
    venue: VenueView,
)
    requires
        venue.canonical(),
    ensures
        forall|i: int|
            0 <= i < tagged(events, venue).len() ==> InstrumentView::of_id(
                (#[trigger] tagged(events, venue)[i]).inst(),
            ).venue == venue,
{
    assert forall|i: int| 0 <= i < tagged(events, venue).len() implies InstrumentView::of_id(
        (#[trigger] tagged(events, venue)[i]).inst(),
    ).venue == venue by {
        law_retagged_ids_read_as_the_venue(events[i].inst(), venue);
    }
}

proof fn lemma_tagged_at<N>(events: Seq<EventView<N>>, venue: VenueView, t: i64)
    ensures
        said_at(tagged(events, venue), t) == tagged(said_at(events, t), venue),
    decreases events.len(),
{
    reveal(Seq::filter);
    if events.len() == 0 {
        assert(said_at(tagged(events, venue), t) =~= tagged(said_at(events, t), venue));
    } else {
        let rest = events.drop_last();
        lemma_tagged_at(rest, venue, t);
        assert(tagged(events, venue).drop_last() =~= tagged(rest, venue));
        assert(tagged(said_at(rest, t).push(events.last()), venue) =~= tagged(
            said_at(rest, t),
            venue,
        ).push(tagged(events, venue).last()));
    }
}

/// A stream in order is still in order once its events carry the venue.
pub proof fn law_tagging_keeps_order<N>(
    events: Seq<EventView<N>>,
    sorted: Seq<EventView<N>>,
    venue: VenueView,
)
    requires
        stable_order(events, sorted),
    ensures
        stable_order(tagged(events, venue), tagged(sorted, venue)),
{
    let ts = tagged(sorted, venue);
    assert forall|i: int, j: int| 0 <= i <= j < ts.len() implies (#[trigger] ts[i]).ts() <= (
    #[trigger] ts[j]).ts() by {
        assert(sorted[i].ts() <= sorted[j].ts());
    }
    assert forall|t: i64| #[trigger] said_at(ts, t) == said_at(tagged(events, venue), t) by {
        lemma_tagged_at(events, venue, t);
        lemma_tagged_at(sorted, venue, t);
        assert(said_at(sorted, t) == said_at(events, t));
    }
}

// ---- one source -----------------------------------------------------------------------------

/// One source of data: which adapter reads it, the venue of its events, where it lies, and what
/// is taken from it.
#[derive(Debug, Clone, PartialEq)]
pub struct AdapterSpec {
    /// The name of the adapter.
    pub adapter: String,
    /// The tag of the venue; empty for the adapter's own.
    pub venue: String,
    /// A file or an address.
    pub path: String,
    /// A pattern that the symbol has to match, before the venue is written in front of it.
    pub instrument: Option<String>,
    /// The first day, `YYYY-MM-DD`.
    pub start: Option<String>,
    /// The first day no longer, `YYYY-MM-DD`.
    pub end: Option<String>,
    /// Names of columns or fields, and other settings of the generic adapters.
    pub mapping: StrMap<String>,
}

impl Default for AdapterSpec {
    fn default() -> (r: AdapterSpec)
        ensures
            r.adapter@ == Seq::<char>::empty(),
            r.venue@ == Seq::<char>::empty(),
            r.path@ == Seq::<char>::empty(),
            r.instrument is None,
            r.start is None,
            r.end is None,
            r.mapping@ == Map::<Seq<char>, String>::empty(),
    {
        AdapterSpec {
            adapter: String::new(),
            venue: String::new(),
            path: String::new(),
            instrument: None,
            start: None,
            end: None,
            mapping: StrMap::new(),
        }
    }
}

/// The text of an optional string.
pub open spec fn opt_text(s: Option<String>) -> Option<Seq<char>> {
    match s {
        Some(t) => Some(t@),
        None => None,
    }
}

/// The text that a map of strings has for a key.
pub open spec fn setting(mapping: Map<Seq<char>, String>, key: Seq<char>) -> Option<Seq<char>> {
    if mapping.contains_key(key) {
        Some(mapping[key]@)
    } else {
        None
    }
}

/// The text that a map of strings has for a key, or else the key itself.
pub open spec fn source_name(mapping: Map<Seq<char>, String>, key: Seq<char>) -> Seq<char> {
    if mapping.contains_key(key) {
        mapping[key]@
    } else {
        key
    }
}

/// Looks up the name that a source has for a field.
pub(crate) fn source_key(mapping: &StrMap<String>, canonical: &str) -> (r: String)
    ensures
        r@ == source_name(mapping@, canonical@),
{
    match mapping.get(canonical) {
        Some(s) => s.clone(),
        None => canonical.to_owned(),
    }
}

impl AdapterSpec {
    /// The venue of the events: the one that is set, else the given one.
    pub open spec fn venue_or(self, default: VenueView) -> VenueView {
        if trimmed(self.venue@).len() == 0 {
            default
        } else {
            VenueView::of_tag(trimmed(self.venue@))
        }
    }

    /// The venue of the events: the one that is set, else `default`.
    pub fn resolved_venue(&self, default: Venue) -> (r: Venue)
        ensures
            r@ == self.venue_or(default@),
    {
        let v = trim(self.venue.as_str());
        if v.as_str().is_empty() {
            default
        } else {
            Venue::from_tag(v.as_str())
        }
    }
}

// ---- prices and dates -----------------------------------------------------------------------

/// The unit in which a source writes prices.
#[derive(Debug, Clone, Copy, PartialEq, Eq, Structural)]
pub enum PriceScale {
    /// Dollars.
    Dollars,
    /// Whole cents.
    Cents,
    /// Hundredths of a cent.
    Bps,
    /// A probability: the same as dollars.
    Prob,
}

/// The unit that a word names.
pub open spec fn scale_named(word: Seq<char>) -> Option<PriceScale> {
    if word == "dollars"@ || word == "dollar"@ || word == "usd"@ {
        Some(PriceScale::Dollars)
    } else if word == "cents"@ || word == "cent"@ {
        Some(PriceScale::Cents)
    } else if word == "bps"@ || word == "bp"@ {
        Some(PriceScale::Bps)
    } else if word == "prob"@ || word == "probability"@ {
        Some(PriceScale::Prob)
    } else {
        None
    }
}

/// The unit that the settings of a source choose, or the failure to choose one.
pub open spec fn scale_of(mapping: Map<Seq<char>, String>) -> Result<
    PriceScale,
    (ErrorKind, Seq<char>),
> {
    match setting(mapping, "price_scale"@) {
        Some(raw) => {
            let word = lowercase(trimmed(raw));
            match scale_named(word) {
                Some(s) => Ok(s),
                None => Err(
                    (
                        ErrorKind::BadPriceScale,
                        "unknown price_scale '"@ + word
                            + "' — expected dollars|cents|bps|prob"@,
                    ),
                ),
            }
        },
        None => match setting(mapping, "price_is_cents"@) {
            Some(v) => if v == "true"@ || v == "1"@ {
                Ok(PriceScale::Cents)
            } else {
                Ok(PriceScale::Dollars)
            },
            None => Ok(PriceScale::Dollars),
        },
    }
}

impl PriceScale {
    /// The unit that the settings of a source choose: `price_scale`, else `price_is_cents`, else
    /// dollars.
    pub fn from_mapping(mapping: &StrMap<String>) -> (r: Result<PriceScale, Error>)
        ensures
            match r {
                Ok(s) => scale_of(mapping@) == Ok::<PriceScale, (ErrorKind, Seq<char>)>(s),
                Err(e) => scale_of(mapping@) == Err::<PriceScale, (ErrorKind, Seq<char>)>(e@),
            },
    {
        match mapping.get("price_scale") {
            Some(raw) => {
                let t = trim(raw.as_str());
                let word = to_lowercase(t.as_str());
                let w = word.as_str();
                if same_text(w, "dollars") || same_text(w, "dollar") || same_text(w, "usd") {
                    Ok(PriceScale::Dollars)
                } else if same_text(w, "cents") || same_text(w, "cent") {
                    Ok(PriceScale::Cents)
                } else if same_text(w, "bps") || same_text(w, "bp") {
                    Ok(PriceScale::Bps)
                } else if same_text(w, "prob") || same_text(w, "probability") {
                    Ok(PriceScale::Prob)
                } else {
                    Err(
                        Error::new(
                            ErrorKind::BadPriceScale,
                            concat3(
                                "unknown price_scale '",
                                w,
                                "' — expected dollars|cents|bps|prob",
                            ),
                        ),
                    )
                }
            },
            None => match mapping.get("price_is_cents") {
                Some(v) => if same_text(v.as_str(), "true") || same_text(v.as_str(), "1") {
                    Ok(PriceScale::Cents)
                } else {
                    Ok(PriceScale::Dollars)
                },
                None => Ok(PriceScale::Dollars),
            },
        }
    }

    /// A price in this unit, in whole cents.
    pub open spec fn cents_of<N: Number>(self, raw: N) -> Cents {
        match self {
            PriceScale::Dollars => Cents::of_dollars(raw),
            PriceScale::Prob => Cents::of_dollars(raw),
            PriceScale::Cents => Cents(to_i32_range(raw.nearest().truncated())),
            PriceScale::Bps => Cents(
                to_i32_range(raw.quotient(N::integer(100)).nearest().truncated()),
            ),
        }
    }

    /// A price in this unit, rounded to whole cents.
    pub fn to_cents<N: Number>(self, raw: N) -> (r: Cents)
        ensures
            r == self.cents_of(raw),
    {
        match self {
            PriceScale::Dollars => Cents::from_dollars(raw),
            PriceScale::Prob => Cents::from_dollars(raw),
            PriceScale::Cents => Cents(to_i32(raw.round())),
            PriceScale::Bps => Cents(to_i32(raw.over(N::from_int(100)).round())),
        }
    }
}

/// What is told of a text that is no date.
pub open spec fn bad_date(date: Seq<char>, cause: Seq<char>) -> (ErrorKind, Seq<char>) {
    (ErrorKind::BadDate, "bad date '"@ + date + "' (expected YYYY-MM-DD): "@ + cause)
}

/// The nanoseconds since the epoch at the midnight of a day, given what the calendar says of its
/// text: 0 where they do not fit.
pub open spec fn midnight(date: Seq<char>, calendar: Result<Option<i64>, Seq<char>>) -> Result<
    i64,
    (ErrorKind, Seq<char>),
> {
    match calendar {
        Ok(Some(ns)) => Ok(ns),
        Ok(None) => Ok(0),
        Err(cause) => Err(bad_date(date, cause)),
    }
}

/// The midnight of a day, given what the calendar says of its text.
pub fn midnight_of(date: &str, calendar: Result<Option<i64>, String>) -> (r: Result<i64, Error>)
    ensures
        ({
            let due = midnight(
                date@,
                match calendar {
                    Ok(ns) => Ok(ns),
                    Err(cause) => Err(cause@),
                },
            );
            match r {
                Ok(ns) => due == Ok::<i64, (ErrorKind, Seq<char>)>(ns),
                Err(e) => due == Err::<i64, (ErrorKind, Seq<char>)>(e@),
            }
        }),
{
    match calendar {
        Ok(Some(ns)) => Ok(ns),
        Ok(None) => Ok(0),
        Err(cause) => {
            let mut m = concat3("bad date '", date, "' (expected YYYY-MM-DD): ");
            m.append(cause.as_str());
            Err(Error::new(ErrorKind::BadDate, m))
        },
    }
}

/// The midnight that a text `YYYY-MM-DD` stands for, white space at its ends aside.
pub open spec fn date_ns(date: Seq<char>) -> Result<i64, (ErrorKind, Seq<char>)> {
    midnight(date, date_nanos(trimmed(date)))
}

/// The midnight of a day `YYYY-MM-DD` in UTC, in nanoseconds since the epoch.
pub fn date_to_ns(date: &str) -> (r: Result<i64, Error>)
    ensures
        match r {
            Ok(ns) => date_ns(date@) == Ok::<i64, (ErrorKind, Seq<char>)>(ns),
            Err(e) => date_ns(date@) == Err::<i64, (ErrorKind, Seq<char>)>(e@),
        },
{
    let t = trim(date);
    midnight_of(date, parse_date(t.as_str()))
}

/// The midnight of an optional day, or the failure to read it.
pub open spec fn opt_date_ns(date: Option<String>) -> Result<Option<i64>, (ErrorKind, Seq<char>)> {
    match date {
        None => Ok(None),
        Some(d) => match date_ns(d@) {
            Ok(ns) => Ok(Some(ns)),
            Err(e) => Err(e),
        },
    }
}

/// The midnight of an optional day.
pub fn date_to_ns_opt(date: &Option<String>) -> (r: Result<Option<i64>, Error>)
    ensures
        match r {
            Ok(ns) => opt_date_ns(*date) == Ok::<Option<i64>, (ErrorKind, Seq<char>)>(ns),
            Err(e) => opt_date_ns(*date) == Err::<Option<i64>, (ErrorKind, Seq<char>)>(e@),
        },
{
    match date {
        None => Ok(None),
        Some(d) => match date_to_ns(d.as_str()) {
            Ok(ns) => Ok(Some(ns)),
            Err(e) => Err(e),
        },
    }
}

/// Whether a time lies in the range from `start` up to but without `end`.
pub open spec fn within(ts: i64, start: Option<i64>, end: Option<i64>) -> bool {
    &&& (start matches Some(s) ==> s <= ts)
    &&& (end matches Some(e) ==> ts < e)
}

/// Whether a time lies in the range from `start` up to but without `end`.
pub(crate) fn in_range(ts: i64, start: Option<i64>, end: Option<i64>) -> (r: bool)
    ensures
        r == within(ts, start, end),
{
    match start {
        Some(s) => if ts < s {
            return false;
        },
        None => {},
    }
    match end {
        Some(e) => if ts >= e {
            return false;
        },
        None => {},
    }
    true
}

/// The deltas, then the trades.
pub open spec fn all_events<N>(deltas: Seq<DeltaView<N>>, trades: Seq<TradeView<N>>) -> Seq<
    EventView<N>,
> {
    deltas.map_values(|d: DeltaView<N>| EventView::Delta(d)) + trades.map_values(
        |t: TradeView<N>| EventView::Trade(t),
    )
}

/// Makes one stream of deltas and trades: under the venue, in order of time.
pub fn finalize_events<N>(
    deltas: Vec<BookDelta<N>>,
    trades: Vec<TradeEvent<N>>,
    venue: &Venue,
) -> (r: Vec<MarketEvent<N>>)
    ensures
        stable_order(
            tagged(all_events(delta_views(deltas@), trade_views(trades@)), venue@),
            event_views(r@),
        ),
{
    let ghost ds = deltas@;
    let ghost ts = trades@;
    let mut events: Vec<MarketEvent<N>> = Vec::new();
    for d in it: deltas
        invariant
            it.seq() == ds,
            events@.len() == it.index(),
            forall|j: int|
                0 <= j < events@.len() ==> #[trigger] events@[j] == MarketEvent::Delta(ds[j]),
    {
        events.push(MarketEvent::Delta(d));
    }
    for t in it: trades
        invariant
            it.seq() == ts,
            events@.len() == ds.len() + it.index(),
            forall|j: int|
                0 <= j < ds.len() ==> #[trigger] events@[j] == MarketEvent::Delta(ds[j]),
            forall|j: int|
                ds.len() <= j < events@.len() ==> #[trigger] events@[j] == MarketEvent::Trade(
                    ts[j - ds.len()],
                ),
    {
        events.push(MarketEvent::Trade(t));
    }
    assert(event_views(events@) =~= all_events(delta_views(ds), trade_views(ts)));
    tag_events_with_venue(&mut events, venue);
    sort_events(events)
}

// ---- adapters -------------------------------------------------------------------------------

/// A setting that an adapter knows, and what it is for.
#[derive(Debug, Clone, Copy)]
pub struct MappingKey {
    pub key: &'static str,
    pub note: &'static str,
}

/// The texts of the settings that an adapter knows.
pub open spec fn knob_texts(keys: Seq<MappingKey>) -> Seq<(Seq<char>, Seq<char>)> {
    keys.map_values(|k: MappingKey| (k.key@, k.note@))
}

/// What there is to know of an adapter.
#[derive(Debug, Clone)]
pub struct AdapterInfo {
    /// Its name.
    pub name: String,
    /// The tag of the venue of its events, where the source sets none.
    pub default_venue: String,
    /// What it reads.
    pub description: String,
    /// The settings that it knows.
    pub mapping_keys: Vec<MappingKey>,
}

/// An adapter, and what there is to know of it.
pub trait DataAdapter {
    /// The name that sources call it by.
    open spec fn key(&self) -> Seq<char> {
        arbitrary()
    }

    /// The venue of its events, where the source sets none.
    open spec fn home(&self) -> VenueView {
        arbitrary()
    }

    /// What it reads, in words.
    open spec fn about(&self) -> Seq<char> {
        arbitrary()
    }

    /// The settings that it knows, and what each is for.
    open spec fn knobs(&self) -> Seq<(Seq<char>, Seq<char>)> {
        arbitrary()
    }

    /// The name that sources call it by.
    fn name(&self) -> (r: &str)
        ensures
            r@ == self.key(),
    ;

    /// The venue of its events, where the source sets none.
    fn default_venue(&self) -> (r: Venue)
        ensures
            r@ == self.home(),
    ;

    /// What it reads, in words.
    fn description(&self) -> (r: &str)
        ensures
            r@ == self.about(),
    ;

    /// The settings that it knows.
    fn mapping_keys(&self) -> (r: Vec<MappingKey>)
        ensures
            knob_texts(r@) == self.knobs(),
    ;

    /// What there is to know of it.
    fn info(&self) -> (r: AdapterInfo)
        ensures
            r.name@ == self.key(),
            r.default_venue@ == self.home().tag_text(),
            r.description@ == self.about(),
            knob_texts(r.mapping_keys@) == self.knobs(),
    {
        AdapterInfo {
            name: self.name().to_owned(),
            default_venue: self.default_venue().tag(),
            description: self.description().to_owned(),
            mapping_keys: self.mapping_keys(),
        }
    }
}

/// An adapter reads the data of one source into events.
pub trait AdapterLoad<N: Number>: DataAdapter {
    /// Whether a result is what it makes of a source.
    open spec fn reads(
        &self,
        spec: AdapterSpec,
        data: Seq<u8>,
        r: Result<Vec<MarketEvent<N>>, Error>,
    ) -> bool {
        true
    }

    /// Reads the data of a source: its events, under its venue, in order of time.
    fn load(&self, spec: &AdapterSpec, data: &[u8]) -> (r: Result<Vec<MarketEvent<N>>, Error>)
        ensures
            self.reads(*spec, data@, r),
    ;
}

/// A price is read in its unit, to the nearest cent: with numbers of six decimals it misses by no
/// more than half a cent, and in hundredths of a cent by no more than a hair above that.
pub proof fn law_scales_read_prices(raw: Fixed)
    requires
        -20_000_000_000_000 <= raw.units <= 20_000_000_000_000,
    ensures
        -5_000 <= raw.units - PriceScale::Dollars.cents_of(raw).0 * 10_000 <= 5_000,
        -5_000 <= raw.units - PriceScale::Prob.cents_of(raw).0 * 10_000 <= 5_000,
        -500_000 <= raw.units - PriceScale::Cents.cents_of(raw).0 * 1_000_000 <= 500_000,
        -50_000_100 <= raw.units - PriceScale::Bps.cents_of(raw).0 * 100_000_000 <= 50_000_100,
{
    law_prices_are_nearest(raw);
    lemma_nearest_whole(raw);
    let hundred = Fixed::integer(100);
    assert(hundred.units == 100_000_000);
    lemma_cut(raw.units * 1_000_000, 100_000_000);
    let q = raw.quotient(hundred);
    assert(-100 < raw.units - q.units * 100 < 100);
    lemma_nearest_whole(q);
}

proof fn lemma_nearest_whole(x: Fixed)
    requires
        -20_000_000_000_000 <= x.units <= 20_000_000_000_000,
    ensures
        ({
            let c = to_i32_range(x.nearest().truncated());
            -500_000 <= x.units - c * 1_000_000 <= 500_000
        }),
{
    let m = size(x.units as int) as int;
    let k = (m + 500_000) / 1_000_000;
    let signed = if x.units < 0 {
        -k
    } else {
        k
    };
    assert(x.nearest().units == signed * 1_000_000);
    lemma_cut_multiple(signed, 1_000_000);
}

/// A time is in a range where it is not before the start and before the end, each where there is one.
pub proof fn law_ranges_hold_their_start(ts: i64, start: i64, end: i64)
    ensures
        within(ts, Some(start), Some(end)) <==> start <= ts < end,
        within(ts, Some(start), None) <==> start <= ts,
        within(ts, None, Some(end)) <==> ts < end,
        within(ts, None, None),
        start < end ==> within(start, Some(start), Some(end)),
        !within(end, Some(start), Some(end)),
{
}

} // verus!
