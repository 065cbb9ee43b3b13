//! Consolidated top-of-book engine: validated market-data scalars, sorted
//! per-side diffs and depth-capped books, the linear diff-into-book merge, and
//! a summary book that merges every exchange's books into one top-N view.

pub mod book;
pub mod counting;
pub mod feed;
pub mod primitives;
pub mod summary;

pub use book::{
    quote_to_str, OrderBook, OrderBookAsks, OrderBookBids, OrderBookDiff, OrderBookDiffAsks,
    OrderBookDiffBids, OrderBookError, ASK, BEST_ORDER_BOOK_SIZE, BID,
};
pub use feed::{BookDepth, BookPeriod};
pub use primitives::{Amount, Exchange, Order, Price, SummaryOrder};
pub use summary::{Spread, SummaryOrderBook};
