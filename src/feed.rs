//! Subscription parameters of an exchange's depth stream.

use vstd::prelude::*;
use crate::book::{
    book_levels, has_distinct_prices, is_best_levels, is_side_sorted, is_strictly_side_sorted,
    kept_outcome, updated, OrderBookAsks, OrderBookBids, OrderBookDiffAsks,
    OrderBookDiffBids, OrderBookError, ASK, BEST_ORDER_BOOK_SIZE, BID,
};
use crate::primitives::Order;

verus! {

/// How often the exchange pushes book updates.
#[derive(Clone, Copy, Debug, PartialEq, Eq, Structural)]
pub enum BookPeriod {
    /// Every 1000 ms.
    Normal,
    /// Every 100 ms.
    Fast,
}

impl Default for BookPeriod {
    fn default() -> (r: Self)
        ensures
            r == BookPeriod::Normal,
    {
        BookPeriod::Normal
    }
}

impl BookPeriod {
    /// The update period in milliseconds.
    pub fn millis(&self) -> (r: u16)
        ensures
            r == (match self {
                BookPeriod::Normal => 1000u16,
                BookPeriod::Fast => 100u16,
            }),
    {
        match self {
            BookPeriod::Normal => 1000,
            BookPeriod::Fast => 100,
        }
    }
}

/// How many levels a partial-depth stream carries.
#[derive(Clone, Copy, Debug, PartialEq, Eq, Structural)]
pub enum BookDepth {
    Small,
    Medium,
    Large,
}

impl Default for BookDepth {
    fn default() -> (r: Self)
        ensures
            r == BookDepth::Medium,
    {
        BookDepth::Medium
    }
}

impl BookDepth {
    /// The number of levels.
    pub fn levels(&self) -> (r: u8)
        ensures
            r == (match self {
                BookDepth::Small => 5u8,
                BookDepth::Medium => 10u8,
                BookDepth::Large => 20u8,
            }),
    {
        match self {
            BookDepth::Small => 5,
            BookDepth::Medium => 10,
            BookDepth::Large => 20,
        }
    }
}


/// The books after a depth update: each side's orders become a diff, checked
/// before either book changes, and are applied to that side's book.
pub fn apply_depth_update(
    bids: &OrderBookBids,
    asks: &OrderBookAsks,
    bid_orders: Vec<Order>,
    ask_orders: Vec<Order>,
) -> (r: Result<(OrderBookBids, OrderBookAsks), OrderBookError>)
    ensures
        r is Ok <==> has_distinct_prices(bid_orders@) && has_distinct_prices(ask_orders@),
        r is Err ==> r == Err::<(OrderBookBids, OrderBookAsks), OrderBookError>(
            OrderBookError::HasOrderWithNotUniquePrice,
        ),
        r is Ok ==> exists|d: Seq<Order>|
            #![trigger d.to_multiset()]
            is_strictly_side_sorted(BID, d) && d.to_multiset() == bid_orders@.to_multiset()
                && r->Ok_0.0@ == updated(BID, BEST_ORDER_BOOK_SIZE as int, bids@, d),
        r is Ok ==> exists|d: Seq<Order>|
            #![trigger d.to_multiset()]
            is_strictly_side_sorted(ASK, d) && d.to_multiset() == ask_orders@.to_multiset()
                && r->Ok_0.1@ == updated(ASK, BEST_ORDER_BOOK_SIZE as int, asks@, d),
{
    let bid_diff = match OrderBookDiffBids::new(bid_orders) {
        Ok(d) => d,
        Err(e) => return Err(e),
    };
    let ask_diff = match OrderBookDiffAsks::new(ask_orders) {
        Ok(d) => d,
        Err(e) => return Err(e),
    };
    let new_bids = bids.update(&bid_diff);
    let new_asks = asks.update(&ask_diff);
    proof {
        assert(bid_diff@.to_multiset() == bid_diff@.to_multiset());
        assert(ask_diff@.to_multiset() == ask_diff@.to_multiset());
    }
    Ok((new_bids, new_asks))
}

/// The levels of both books, or the error, of a snapshot's result.
pub open spec fn snapshot_levels(r: Result<(OrderBookBids, OrderBookAsks), OrderBookError>) -> Result<
    (Seq<Order>, Seq<Order>),
    OrderBookError,
> {
    match r {
        Ok((b, a)) => Ok((b@, a@)),
        Err(e) => Err(e),
    }
}

/// The outcome of validating the bid side, then the ask side.
pub open spec fn snapshot_outcome(
    bids: Result<Seq<Order>, OrderBookError>,
    asks: Result<Seq<Order>, OrderBookError>,
) -> Result<(Seq<Order>, Seq<Order>), OrderBookError> {
    match bids {
        Err(e) => Err(e),
        Ok(b) => match asks {
            Err(e) => Err(e),
            Ok(a) => Ok((b, a)),
        },
    }
}

/// The books of a snapshot: each side's orders ranked, and the best levels kept
/// as `OrderBook::new` keeps them; the bid side is checked first.
pub fn apply_snapshot(bid_orders: Vec<Order>, ask_orders: Vec<Order>) -> (r: Result<
    (OrderBookBids, OrderBookAsks),
    OrderBookError,
>)
    ensures
        exists|sb: Seq<Order>, sa: Seq<Order>|
            #![trigger sb.to_multiset(), sa.to_multiset()]
            is_side_sorted(BID, sb) && sb.to_multiset() == bid_orders@.to_multiset() && is_side_sorted(
                ASK,
                sa,
            ) && sa.to_multiset() == ask_orders@.to_multiset() && snapshot_levels(r)
                == snapshot_outcome(
                kept_outcome(BEST_ORDER_BOOK_SIZE as int, sb),
                kept_outcome(BEST_ORDER_BOOK_SIZE as int, sa),
            ),
        r is Ok ==> is_best_levels(BID, BEST_ORDER_BOOK_SIZE as int, bid_orders@, r->Ok_0.0@),
        r is Ok ==> is_best_levels(ASK, BEST_ORDER_BOOK_SIZE as int, ask_orders@, r->Ok_0.1@),
{
    let ghost bv = bid_orders@;
    let ghost av = ask_orders@;
    let bids_result = OrderBookBids::new(bid_orders);
    let asks_result = OrderBookAsks::new(ask_orders);
    let ghost sb = choose|s: Seq<Order>|
        #![trigger s.to_multiset()]
        is_side_sorted(BID, s) && s.to_multiset() == bv.to_multiset() && book_levels(bids_result)
            == kept_outcome(BEST_ORDER_BOOK_SIZE as int, s);
    let ghost sa = choose|s: Seq<Order>|
        #![trigger s.to_multiset()]
        is_side_sorted(ASK, s) && s.to_multiset() == av.to_multiset() && book_levels(asks_result)
            == kept_outcome(BEST_ORDER_BOOK_SIZE as int, s);
    proof {
        assert(sb.to_multiset() == bv.to_multiset() && sa.to_multiset() == av.to_multiset());
    }
    match bids_result {
        Err(e) => Err(e),
        Ok(b) => match asks_result {
            Err(e) => Err(e),
            Ok(a) => Ok((b, a)),
        },
    }
}

} // verus!
