//! The smallest adapter there can be: one that reads nothing and makes two events of its own.
use crate::adapters::rows::delivered;
use crate::adapters::{
    all_events, finalize_events, tagged, AdapterLoad, AdapterSpec, DataAdapter, MappingKey, Venue, VenueView,
};
use crate::error::{Error, ErrorKind};
use crate::number::{fraction_of, ratio, Number};
use crate::text::{decimal_int, i64_text};
use crate::types::{
    delta_views, trade_views, Action, BookDelta, Cents, DeltaView, EventView, MarketEvent, Side,
    TradeEvent, TradeView,
};
use vstd::prelude::*;

verus! {

/// An adapter of a venue that does not exist.
#[derive(Debug, Clone, Copy)]
pub struct TemplateAdapter;

impl TemplateAdapter {
    /// The adapter of a venue that does not exist.
    pub fn new() -> (r: TemplateAdapter)
        ensures
            r == TemplateAdapter,
    {
        TemplateAdapter
    }
}

impl Default for TemplateAdapter {
    fn default() -> (r: TemplateAdapter)
        ensures
            r == TemplateAdapter,
    {
        TemplateAdapter::new()
    }
}

/// The bid that the adapter makes.
pub open spec fn template_bid<N: Number>() -> DeltaView<N> {
    DeltaView {
        ts_ns: 1_000,
        instrument: "DEMO"@,
        action: Action::Add,
        side: Side::Bid,
        price: Cents::of_dollars(fraction_of::<N>(40, 100)),
        size: N::integer(100),
        sequence: 1_000,
        is_snapshot: true,
    }
}

/// The trade that the adapter makes.
pub open spec fn template_trade<N: Number>() -> TradeView<N> {
    TradeView {
        ts_ns: 2_000,
        instrument: "DEMO"@,
        aggressor_yes: true,
        price: Cents::of_dollars(fraction_of::<N>(41, 100)),
        size: N::integer(5),
        trade_id: decimal_int(2_000),
    }
}

impl DataAdapter for TemplateAdapter {
    open spec fn key(&self) -> Seq<char> {
        "template"@
    }

    open spec fn home(&self) -> VenueView {
        VenueView::Generic("TEMPLATE"@)
    }

    open spec fn about(&self) -> Seq<char> {
        "(no description provided)"@
    }

    open spec fn knobs(&self) -> Seq<(Seq<char>, Seq<char>)> {
        Seq::empty()
    }

    fn name(&self) -> (r: &str) {
        "template"
    }

    fn default_venue(&self) -> (r: Venue) {
        Venue::Generic("TEMPLATE".to_owned())
    }

    fn description(&self) -> (r: &str) {
        "(no description provided)"
    }

    fn mapping_keys(&self) -> (r: Vec<MappingKey>) {
        let v: Vec<MappingKey> = Vec::new();
        assert(crate::adapters::knob_texts(v@) =~= Seq::<(Seq<char>, Seq<char>)>::empty());
        v
    }
}

impl<N: Number> AdapterLoad<N> for TemplateAdapter {
    open spec fn reads(
        &self,
        spec: AdapterSpec,
        data: Seq<u8>,
        r: Result<Vec<MarketEvent<N>>, Error>,
    ) -> bool {
        delivered(
            Ok::<Seq<EventView<N>>, (ErrorKind, Seq<char>)>(
                tagged(
                    all_events(seq![template_bid::<N>()], seq![template_trade::<N>()]),
                    spec.venue_or(VenueView::Generic("TEMPLATE"@)),
                ),
            ),
            r,
        )
    }

    fn load(&self, spec: &AdapterSpec, data: &[u8]) -> (r: Result<Vec<MarketEvent<N>>, Error>) {
        let venue = spec.resolved_venue(Venue::Generic("TEMPLATE".to_owned()));
        let bid = BookDelta {
            ts_ns: 1_000,
            instrument: "DEMO".to_owned(),
            action: Action::Add,
            side: Side::Bid,
            price: Cents::from_dollars(ratio::<N>(40, 100)),
            size: N::from_int(100),
            sequence: 1_000,
            is_snapshot: true,
        };
        let trade = TradeEvent {
            ts_ns: 2_000,
            instrument: "DEMO".to_owned(),
            aggressor_yes: true,
            price: Cents::from_dollars(ratio::<N>(41, 100)),
            size: N::from_int(5),
            trade_id: i64_text(2_000),
        };
        let deltas = vec![bid];
        let trades = vec![trade];
        assert(delta_views(deltas@) =~= seq![template_bid::<N>()]);
        assert(trade_views(trades@) =~= seq![template_trade::<N>()]);
        Ok(finalize_events(deltas, trades, &venue))
    }
}

} // verus!
