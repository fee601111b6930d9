//! Typed bid and ask records with their total orderings.
//!
//! Prices and amounts are fixed-point integers: a stored value `v` stands
//! for `v / 10^8` units.  Each side has its own record type so the two
//! orderings cannot be confused: a better bid has a higher price, a better
//! ask a lower one, and price ties are broken by a stable venue rank.
//! Every level maps to an integer sort key such that ascending key order
//! lists a side best-first; the proofs below tie the keys to the orderings.

use vstd::prelude::*;

use crate::exchanges::{venue_rank, venue_rank_spec, ExchangeType};

verus! {

/// One bid entry of the merged view.
#[derive(Debug, Clone, Copy, PartialEq, Eq, Structural)]
pub struct BidLevel {
    pub price: u64,
    pub amount: u64,
    pub exchange: ExchangeType,
}

/// One ask entry of the merged view.
#[derive(Debug, Clone, Copy, PartialEq, Eq, Structural)]
pub struct AskLevel {
    pub price: u64,
    pub amount: u64,
    pub exchange: ExchangeType,
}

/// `a` is a strictly better bid than `b`: higher price, or the same price
/// from a venue of lower rank.
pub open spec fn bid_precedes(a: BidLevel, b: BidLevel) -> bool {
    a.price > b.price || (a.price == b.price && venue_rank_spec(a.exchange) < venue_rank_spec(
        b.exchange,
    ))
}

/// `a` is a strictly better ask than `b`: lower price, or the same price
/// from a venue of lower rank.
pub open spec fn ask_precedes(a: AskLevel, b: AskLevel) -> bool {
    a.price < b.price || (a.price == b.price && venue_rank_spec(a.exchange) < venue_rank_spec(
        b.exchange,
    ))
}

/// Sort key of a bid; ascending keys list bids best-first.
pub open spec fn bid_key_spec(l: BidLevel) -> int {
    (u64::MAX - l.price) * 256 + venue_rank_spec(l.exchange)
}

/// Sort key of an ask; ascending keys list asks best-first.
pub open spec fn ask_key_spec(l: AskLevel) -> int {
    l.price * 256 + venue_rank_spec(l.exchange)
}

/// The venue rank stays inside one key digit.
proof fn lemma_rank_bounds(e: ExchangeType)
    ensures
        0 <= venue_rank_spec(e) < 256,
{
}

/// Two venues with the same rank are the same venue.
proof fn lemma_rank_injective(a: ExchangeType, b: ExchangeType)
    ensures
        venue_rank_spec(a) == venue_rank_spec(b) ==> a == b,
{
}

/// The bid key orders bids exactly as `bid_precedes` does, and two bids share
/// a key exactly when they share price and venue.
pub proof fn lemma_bid_key_order(a: BidLevel, b: BidLevel)
    ensures
        bid_key_spec(a) < bid_key_spec(b) <==> bid_precedes(a, b),
        bid_key_spec(a) == bid_key_spec(b) <==> (a.price == b.price && a.exchange == b.exchange),
{
    lemma_rank_bounds(a.exchange);
    lemma_rank_bounds(b.exchange);
    lemma_rank_injective(a.exchange, b.exchange);
}

/// The ask key orders asks exactly as `ask_precedes` does, and two asks share
/// a key exactly when they share price and venue.
pub proof fn lemma_ask_key_order(a: AskLevel, b: AskLevel)
    ensures
        ask_key_spec(a) < ask_key_spec(b) <==> ask_precedes(a, b),
        ask_key_spec(a) == ask_key_spec(b) <==> (a.price == b.price && a.exchange == b.exchange),
{
    lemma_rank_bounds(a.exchange);
    lemma_rank_bounds(b.exchange);
    lemma_rank_injective(a.exchange, b.exchange);
}

/// Computes the sort key of a bid.
pub fn bid_key(l: &BidLevel) -> (k: u128)
    ensures
        k as int == bid_key_spec(*l),
{
    ((u64::MAX - l.price) as u128) * 256 + (venue_rank(l.exchange) as u128)
}

/// Computes the sort key of an ask.
pub fn ask_key(l: &AskLevel) -> (k: u128)
    ensures
        k as int == ask_key_spec(*l),
{
    (l.price as u128) * 256 + (venue_rank(l.exchange) as u128)
}

/// `a` ranks strictly before `b` among bids (better deal first).
pub fn bid_better(a: &BidLevel, b: &BidLevel) -> (r: bool)
    ensures
        r == bid_precedes(*a, *b),
{
    a.price > b.price || (a.price == b.price && venue_rank(a.exchange) < venue_rank(b.exchange))
}

/// `a` ranks strictly before `b` among asks (better deal first).
pub fn ask_better(a: &AskLevel, b: &AskLevel) -> (r: bool)
    ensures
        r == ask_precedes(*a, *b),
{
    a.price < b.price || (a.price == b.price && venue_rank(a.exchange) < venue_rank(b.exchange))
}

} // verus!
