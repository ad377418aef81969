//! Consumer-facing records of the market-data feed: trades and the
//! notification stream emitted by an ingest session.

use vstd::prelude::*;
use crate::order_book::{LimitUpdate, Side, TickUnit};

verus! {

#[derive(Clone, Copy, PartialEq, Eq, Structural, Hash, Debug)]
/// A liquidity-consuming trade reported by the venue.
pub struct Trade {
    /// Price in price ticks.
    pub price: TickUnit,

    /// Size consumed by the trade, in size ticks.
    pub size: TickUnit,

    /// Side of the maker, carrying the venue's maker flag verbatim:
    /// `Bid` when the venue reports the buyer as the maker, `Ask`
    /// otherwise.
    pub maker_side: Side,

    /// Venue timestamp of the trade, in milliseconds.
    pub time: u64,

    /// Venue identifier of the buy order.
    pub buyer_id: u64,

    /// Venue identifier of the sell order.
    pub seller_id: u64,
}

#[derive(Clone, PartialEq, Eq, Debug)]
/// A notification that some event happened, delivered in production order
/// over the session's notification channel.
pub enum Notification {
    /// A trade was executed.
    Trade(Trade),

    /// The limit order book has changed and should be updated; zero-size
    /// entries denote limit removal.
    LimitUpdates(Vec<LimitUpdate>),
}

} // verus!
