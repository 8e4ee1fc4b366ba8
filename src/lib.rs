//! A limit-order matching engine: per-instrument order books with
//! price-time priority, five order types and verified book invariants.
//!
//! Prices and quantities are `Fixed` values with nine fractional digits; a
//! book holds magnitudes up to `MAX_UNITS`. Conventions:
//! - a limit order that meets the other side trades first, then rests what is
//!   left at its price;
//! - a book snapshot lists both sides from the highest price down: asks worst
//!   first, bids best first;
//! - the events of a placement come in the order trades, makers removed, order
//!   added; merging a system-level order into the resting one is silent;
//! - a system-level order never trades on arrival, so one placed at a price
//!   that meets the other side leaves the book crossed.

mod book;
mod engine;
mod fixed;
pub mod laws;
mod order_book;
mod orders;
mod price_levels;
mod sums;
pub mod symbol_book;
mod types;

pub use book::{HalfBook, executed_qty, level_has, prices_best_first, within};
pub use engine::{MatchingEngine, TradingPair};
pub use fixed::{Fixed, MAX_UNITS, SCALE, decimal_bytes, fixed_text};
pub use order_book::{
    Notification, OrderBook, OrderBookState, is_valid_request, not_crossed, removal_events, valid_request,
};
pub use orders::{
    Fill, OrderRequest, OrderResult, OrderStatus, OrderType, TradeExecution, TradeOrder, fills_qty,
    status_of,
};
pub use price_levels::{PriceLevel, SparseVec};
pub use sums::{level_volume, order_count, volume};
pub use types::{
    OrderId, Price, Quantity, Side, Timestamp, create_id_from_bytes, create_order_id, timestamp,
};
