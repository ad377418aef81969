//! A limit-order-book matching engine: a price-time-priority book over an
//! arena of book entries, with verified invariants on its best limits,
//! entry chains and order identifiers.

pub mod order_book;
pub mod arena;
pub mod tick;
pub mod matching_engine;
pub mod api;
pub mod session;
