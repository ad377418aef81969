//! Basic order-book vocabulary shared by the matching engine and the
//! market-data ingest: prices and sizes in ticks, sides, and limit updates.

use vstd::prelude::*;

verus! {

/// A price, expressed as a non-negative count of price ticks.
///
/// The value `0` is reserved as the "no bid" sentinel and `u64::MAX` as the
/// "no ask" sentinel; resting orders always have a price strictly between
/// the two.
pub type Price = u64;

/// A quantity, expressed as a non-negative count of size ticks.
pub type Size = u64;

/// An order identifier, assigned by the matching engine in strictly
/// increasing order of insertion.
pub type OrderId = u64;

/// A tick count, as carried by API-facing records.
pub type TickUnit = u64;

#[derive(Clone, Copy, PartialEq, Eq, Structural, Hash, Debug)]
/// The side of an order or of a price limit.
pub enum Side {
    /// A buy order, or the buy side of the book.
    Bid,
    /// A sell order, or the sell side of the book.
    Ask,
}

#[derive(Clone, Copy, PartialEq, Eq, Structural, Hash, Debug)]
/// A normalized change of one price limit of the venue's book.
///
/// A `size` of `0` means the limit at `price` is now empty.
pub struct LimitUpdate {
    /// Side of the updated limit.
    pub side: Side,

    /// Price of the updated limit, in price ticks.
    pub price: Price,

    /// New aggregate size resting at the limit, in size ticks.
    pub size: Size,
}

} // verus!
