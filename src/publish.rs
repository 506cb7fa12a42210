//! Copy-on-write publication of an input's filter map: every change builds a
//! whole new map and installs it with one atomic swap, so a reader sees
//! either the old map or the new one, never one half built.

use std::collections::HashMap;
use std::sync::Arc;
use vstd::prelude::*;

use crate::endpoints::SourceId;
use crate::filter::Filter;

verus! {

/// The filters of an input by source, as published to the real-time path.
/// It holds an `arc_swap::ArcSwap`, hidden from verification; what it holds
/// is named by `published_map`.
#[verifier::external_body]
pub struct FilterTable {
    cell: arc_swap::ArcSwap<HashMap<SourceId, Filter>>,
}

/// The map that the table holds.
pub uninterp spec fn published_map(table: FilterTable) -> Map<SourceId, Filter>;

impl FilterTable {
    /// Relies on `arc_swap::ArcSwapAny::from_pointee`: the new table holds
    /// `map`.
    #[verifier::external_body]
    pub(crate) fn new(map: HashMap<SourceId, Filter>) -> (r: FilterTable)
        ensures
            published_map(r) == map@,
    {
        FilterTable { cell: arc_swap::ArcSwap::from_pointee(map) }
    }

    /// Relies on `arc_swap::ArcSwapAny::store`: from then on the table holds
    /// `map`, installed in one atomic swap.
    #[verifier::external_body]
    pub(crate) fn store(&mut self, map: HashMap<SourceId, Filter>)
        ensures
            published_map(*final(self)) == map@,
    {
        self.cell.store(Arc::new(map))
    }

    /// Relies on `arc_swap::ArcSwapAny::load_full`: a shared handle to the
    /// whole map that the table holds.
    #[verifier::external_body]
    pub(crate) fn load(&self) -> (r: Arc<HashMap<SourceId, Filter>>)
        ensures
            (*r)@ == published_map(*self),
    {
        self.cell.load_full()
    }
}

} // verus!
