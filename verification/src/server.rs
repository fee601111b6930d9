//! The subscription service's configuration and summary arithmetic.
//!
//! The service owns the `(symbol, depth, venues)` triple that every
//! subscription is built from, and the arithmetic that turns a merged
//! view into the outbound summary: the spread between the best ask and
//! the best bid, in the same fixed-point units as the levels.

use vstd::prelude::*;

use crate::exchanges::ExchangeType;
use crate::levels::{AskLevel, BidLevel};

verus! {

/// Configuration of the book-summary service: every subscription builds
/// its own aggregator from this triple.
#[derive(Debug)]
pub struct OrderbookSummaryService {
    pub symbol: Vec<u8>,
    pub max_depth: usize,
    pub exchanges: Vec<ExchangeType>,
}

impl OrderbookSummaryService {
    /// A service that will aggregate `symbol` at depth `max_depth` across
    /// the given venues.
    pub fn new(symbol: Vec<u8>, max_depth: usize, exchanges: Vec<ExchangeType>) -> (s: Self)
        ensures
            s.symbol@ == symbol@,
            s.max_depth == max_depth,
            s.exchanges@ == exchanges@,
    {
        OrderbookSummaryService { symbol, max_depth, exchanges }
    }
}

/// The spread of a merged view: best ask price minus best bid price, in
/// fixed-point units; negative when the book is crossed.
pub fn spread(bids: &Vec<BidLevel>, asks: &Vec<AskLevel>) -> (s: i128)
    requires
        bids@.len() > 0,
        asks@.len() > 0,
    ensures
        s == asks@[0].price - bids@[0].price,
{
    (asks[0].price as i128) - (bids[0].price as i128)
}

} // verus!
