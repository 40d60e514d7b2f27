//! Message types of the price-reference oracle service.

use vstd::prelude::*;

verus! {

/// The instantiation message: the service needs no configuration.
#[derive(Clone, Copy, Debug, PartialEq, Eq, Structural)]
pub struct InitMsg {}

/// The queries the service answers.
#[derive(Clone, Debug, PartialEq, Eq)]
pub enum BandQuery {
    /// One base/quote rate.
    GetReferenceData {
        /// The base symbol.
        base_symbol: String,
        /// The quote symbol.
        quote_symbol: String,
    },
    /// Many rates at once.
    GetReferenceDataBulk {
        /// The base symbols.
        base_symbols: Vec<String>,
        /// The quote symbols.
        quote_symbols: Vec<String>,
    },
}

/// One reported rate, scaled by 10^18, with the update times of both legs.
#[derive(Clone, Copy, Debug, PartialEq, Eq, Structural)]
pub struct ReferenceData {
    /// The base/quote rate, scaled by 10^18.
    pub rate: u128,
    /// When the base leg was last updated.
    pub last_updated_base: u64,
    /// When the quote leg was last updated.
    pub last_updated_quote: u64,
}

} // verus!
