//! Polymarket outcome tokens: prices are probabilities, so a bid at 0.42 is a bid at 42 cents.
use crate::adapters::generic_ndjson::{load_ndjson, ndjson_events, GenericNdjsonAdapter};
use crate::adapters::rows::delivered;
use crate::adapters::{AdapterLoad, AdapterSpec, DataAdapter, MappingKey, Venue, VenueView};
use crate::error::Error;
use crate::number::Number;
use crate::types::MarketEvent;
use vstd::prelude::*;

verus! {

/// Polymarket data that was exported to newline-delimited JSON.
#[derive(Debug, Clone, Copy)]
pub struct PolymarketAdapter {
    pub inner: GenericNdjsonAdapter,
}

impl PolymarketAdapter {
    /// The adapter of Polymarket.
    pub fn new() -> (r: PolymarketAdapter)
        ensures
            DataAdapter::key(&r) == "polymarket"@,
    {
        PolymarketAdapter { inner: GenericNdjsonAdapter::new() }
    }
}

impl Default for PolymarketAdapter {
    fn default() -> (r: PolymarketAdapter)
        ensures
            DataAdapter::key(&r) == "polymarket"@,
    {
        PolymarketAdapter::new()
    }
}

impl DataAdapter for PolymarketAdapter {
    open spec fn key(&self) -> Seq<char> {
        "polymarket"@
    }

    open spec fn home(&self) -> VenueView {
        VenueView::Polymarket
    }

    open spec fn about(&self) -> Seq<char> {
        "Polymarket CLOB (binary outcome tokens, prob prices); reads canonical NDJSON, venue POLYMARKET."@
    }

    open spec fn knobs(&self) -> Seq<(Seq<char>, Seq<char>)> {
        Seq::empty()
    }

    fn name(&self) -> (r: &str) {
        "polymarket"
    }

    fn default_venue(&self) -> (r: Venue) {
        Venue::Polymarket
    }

    fn description(&self) -> (r: &str) {
        "Polymarket CLOB (binary outcome tokens, prob prices); reads canonical NDJSON, venue POLYMARKET."
    }

    fn mapping_keys(&self) -> (r: Vec<MappingKey>) {
        let v: Vec<MappingKey> = Vec::new();
        assert(crate::adapters::knob_texts(v@) =~= Seq::<(Seq<char>, Seq<char>)>::empty());
        v
    }
}

impl<N: Number> AdapterLoad<N> for PolymarketAdapter {
    open spec fn reads(
        &self,
        spec: AdapterSpec,
        data: Seq<u8>,
        r: Result<Vec<MarketEvent<N>>, Error>,
    ) -> bool {
        delivered(ndjson_events::<N>(spec, spec.venue_or(VenueView::Polymarket), data), r)
    }

    fn load(&self, spec: &AdapterSpec, data: &[u8]) -> (r: Result<Vec<MarketEvent<N>>, Error>) {
        let venue = spec.resolved_venue(Venue::Polymarket);
        load_ndjson::<N>(spec, venue, data)
    }
}

} // verus!
