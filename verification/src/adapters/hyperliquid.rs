//! Hyperliquid perpetuals: prices in dollars, or in cents where `price_is_cents` says so.
use crate::adapters::generic_ndjson::{load_ndjson, ndjson_events, GenericNdjsonAdapter};
use crate::adapters::rows::delivered;
use crate::adapters::{AdapterLoad, AdapterSpec, DataAdapter, MappingKey, Venue, VenueView};
use crate::error::Error;
use crate::number::Number;
use crate::types::MarketEvent;
use vstd::prelude::*;

verus! {

/// Hyperliquid data that was exported to newline-delimited JSON.
#[derive(Debug, Clone, Copy)]
pub struct HyperliquidAdapter {
    pub inner: GenericNdjsonAdapter,
}

impl HyperliquidAdapter {
    /// The adapter of Hyperliquid.
    pub fn new() -> (r: HyperliquidAdapter)
        ensures
            DataAdapter::key(&r) == "hyperliquid"@,
    {
        HyperliquidAdapter { inner: GenericNdjsonAdapter::new() }
    }
}

impl Default for HyperliquidAdapter {
    fn default() -> (r: HyperliquidAdapter)
        ensures
            DataAdapter::key(&r) == "hyperliquid"@,
    {
        HyperliquidAdapter::new()
    }
}

impl DataAdapter for HyperliquidAdapter {
    open spec fn key(&self) -> Seq<char> {
        "hyperliquid"@
    }

    open spec fn home(&self) -> VenueView {
        VenueView::Hyperliquid
    }

    open spec fn about(&self) -> Seq<char> {
        "Hyperliquid perpetuals L2 book (dollar prices); reads canonical NDJSON, venue HYPERLIQUID."@
    }

    open spec fn knobs(&self) -> Seq<(Seq<char>, Seq<char>)> {
        Seq::empty()
    }

    fn name(&self) -> (r: &str) {
        "hyperliquid"
    }

    fn default_venue(&self) -> (r: Venue) {
        Venue::Hyperliquid
    }

    fn description(&self) -> (r: &str) {
        "Hyperliquid perpetuals L2 book (dollar prices); reads canonical NDJSON, venue HYPERLIQUID."
    }

    fn mapping_keys(&self) -> (r: Vec<MappingKey>) {
        let v: Vec<MappingKey> = Vec::new();
        assert(crate::adapters::knob_texts(v@) =~= Seq::<(Seq<char>, Seq<char>)>::empty());
        v
    }
}

impl<N: Number> AdapterLoad<N> for HyperliquidAdapter {
    open spec fn reads(
        &self,
        spec: AdapterSpec,
        data: Seq<u8>,
        r: Result<Vec<MarketEvent<N>>, Error>,
    ) -> bool {
        delivered(ndjson_events::<N>(spec, spec.venue_or(VenueView::Hyperliquid), data), r)
    }

    fn load(&self, spec: &AdapterSpec, data: &[u8]) -> (r: Result<Vec<MarketEvent<N>>, Error>) {
        let venue = spec.resolved_venue(Venue::Hyperliquid);
        load_ndjson::<N>(spec, venue, data)
    }
}

} // verus!
