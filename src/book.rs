//! Per-side diffs and depth-capped books, and the linear merge of a diff into a
//! book.
//!
//! The side of a quote is the const parameter `QUOTE`: `ASK` ranks lower prices
//! first, `BID` ranks higher prices first.

use vstd::prelude::*;
use vstd::seq_lib::group_to_multiset_ensures;
use crate::counting::{
    lemma_count_permutation, lemma_count_two_witnesses, lemma_count_two_witnesses_back,
};
use crate::primitives::Order;

verus! {

/// The ask side: best price is the lowest.
pub const ASK: bool = false;

/// The bid side: best price is the highest.
pub const BID: bool = true;

/// The depth of every book of this system.
pub const BEST_ORDER_BOOK_SIZE: usize = 10;

/// Price `a` ranks strictly before price `b` on the given side.
pub open spec fn better(quote: bool, a: u64, b: u64) -> bool {
    if quote {
        a > b
    } else {
        a < b
    }
}

/// Order `a` ranks strictly before order `b` on the given side.
pub open spec fn ranks_before(quote: bool, a: Order, b: Order) -> bool {
    better(quote, a.price_key(), b.price_key())
}

/// No order is followed by one that ranks strictly before it.
pub open spec fn is_side_sorted(quote: bool, s: Seq<Order>) -> bool {
    forall|i: int| 0 <= i && i + 1 < s.len() ==> !ranks_before(quote, #[trigger] s[i + 1], s[i])
}

/// Every order ranks strictly before every later one: sorted, with distinct prices.
pub open spec fn is_strictly_side_sorted(quote: bool, s: Seq<Order>) -> bool {
    forall|i: int, j: int| 0 <= i < j < s.len() ==> ranks_before(quote, #[trigger] s[i], #[trigger] s[j])
}

/// No two orders share a price.
pub open spec fn has_distinct_prices(s: Seq<Order>) -> bool {
    forall|i: int, j: int|
        0 <= i < j < s.len() ==> (#[trigger] s[i]).price_key() != (#[trigger] s[j]).price_key()
}

/// No order is empty.
pub open spec fn has_no_empty(s: Seq<Order>) -> bool {
    forall|i: int| 0 <= i < s.len() ==> !(#[trigger] s[i]).spec_is_empty()
}

/// Some order of `s` has price `p`.
pub open spec fn has_price(s: Seq<Order>, p: u64) -> bool {
    exists|i: int| 0 <= i < s.len() && (#[trigger] s[i]).price_key() == p
}

/// The orders at price `p`.
pub open spec fn at_price(p: u64) -> spec_fn(Order) -> bool {
    |o: Order| o.price_key() == p
}

/// Why a sequence of orders cannot become a diff or a book.
#[derive(Clone, Copy, Debug, PartialEq, Eq, PartialOrd, Ord, Hash, Structural)]
pub enum OrderBookError {
    /// Two orders share a price: the feed data cannot be merged.
    HasOrderWithNotUniquePrice,
    /// A kept order has a zero amount: likely a diff was given where a snapshot was expected.
    HasOrderWithEmptyAmount,
    /// The orders are not in the side's order: likely asks and bids were swapped.
    OrdersNotSortedAccordingToQuoteType,
}

impl OrderBookError {
    /// A human-readable description of the error.
    pub fn message(&self) -> (r: &'static str)
        ensures
            r@ == (match self {
                OrderBookError::HasOrderWithNotUniquePrice => "order book has multiple orders with the same price"@,
                OrderBookError::HasOrderWithEmptyAmount => "order book has order with 0 amount"@,
                OrderBookError::OrdersNotSortedAccordingToQuoteType => "order book is not properly sorted"@,
            }),
    {
        proof {
            reveal_strlit("order book has multiple orders with the same price");
            reveal_strlit("order book has order with 0 amount");
            reveal_strlit("order book is not properly sorted");
        }
        match self {
            OrderBookError::HasOrderWithNotUniquePrice => "order book has multiple orders with the same price",
            OrderBookError::HasOrderWithEmptyAmount => "order book has order with 0 amount",
            OrderBookError::OrdersNotSortedAccordingToQuoteType => "order book is not properly sorted",
        }
    }
}

/// The name of a side.
pub fn quote_to_str<const QUOTE: bool>() -> (r: &'static str)
    ensures
        r@ == (if QUOTE {
            "bid"@
        } else {
            "ask"@
        }),
{
    proof {
        reveal_strlit("bid");
        reveal_strlit("ask");
    }
    if QUOTE {
        "bid"
    } else {
        "ask"
    }
}

/// Whether price `a` ranks strictly before price `b` on the given side.
pub fn price_ranks_before(quote: bool, a: u64, b: u64) -> (r: bool)
    ensures
        r == better(quote, a, b),
{
    if quote {
        a > b
    } else {
        a < b
    }
}

/// Sorted and distinct: in the side's order, every order ranks strictly before the next.
pub proof fn lemma_strictly_sorted_from_adjacent(quote: bool, s: Seq<Order>)
    requires
        forall|i: int| 0 <= i && i + 1 < s.len() ==> ranks_before(quote, #[trigger] s[i], s[i + 1]),
    ensures
        is_strictly_side_sorted(quote, s),
    decreases s.len(),
{
    if s.len() > 1 {
        let t = s.drop_last();
        assert forall|i: int| 0 <= i && i + 1 < t.len() implies ranks_before(quote, #[trigger] t[i], t[i + 1]) by {
            assert(t[i] == s[i] && t[i + 1] == s[i + 1]);
        }
        lemma_strictly_sorted_from_adjacent(quote, t);
        assert forall|i: int, j: int| 0 <= i < j < s.len() implies ranks_before(quote, #[trigger] s[i], #[trigger] s[j]) by {
            if j < s.len() - 1 {
                assert(t[i] == s[i] && t[j] == s[j]);
            } else if i < j - 1 {
                assert(t[i] == s[i] && t[j - 1] == s[j - 1]);
                assert(ranks_before(quote, t[i], t[j - 1]));
                assert(ranks_before(quote, s[j - 1], s[j]));
            }
        }
    }
}

/// In a side-sorted sequence no order ranks strictly before an earlier one.
pub proof fn lemma_sorted_all_pairs(quote: bool, s: Seq<Order>)
    requires
        is_side_sorted(quote, s),
    ensures
        forall|i: int, j: int| 0 <= i < j < s.len() ==> !ranks_before(quote, #[trigger] s[j], #[trigger] s[i]),
    decreases s.len(),
{
    if s.len() > 1 {
        let t = s.drop_last();
        assert forall|i: int| 0 <= i && i + 1 < t.len() implies !ranks_before(quote, #[trigger] t[i + 1], t[i]) by {
            assert(t[i] == s[i] && t[i + 1] == s[i + 1]);
        }
        lemma_sorted_all_pairs(quote, t);
        assert forall|i: int, j: int| 0 <= i < j < s.len() implies !ranks_before(quote, #[trigger] s[j], #[trigger] s[i]) by {
            if j < s.len() - 1 {
                assert(t[i] == s[i] && t[j] == s[j]);
            } else if i < j - 1 {
                assert(t[i] == s[i] && t[j - 1] == s[j - 1]);
                assert(!ranks_before(quote, t[j - 1], t[i]));
                let k = j - 1;
                assert(!ranks_before(quote, s[k + 1], s[k]));
            } else {
                assert(!ranks_before(quote, s[i + 1], s[i]));
            }
        }
    }
}

/// Strictly sorted sequences have distinct prices and are side-sorted.
pub proof fn lemma_strict_facts(quote: bool, s: Seq<Order>)
    requires
        is_strictly_side_sorted(quote, s),
    ensures
        has_distinct_prices(s),
        is_side_sorted(quote, s),
{
    assert forall|i: int| 0 <= i && i + 1 < s.len() implies !ranks_before(quote, #[trigger] s[i + 1], s[i]) by {
        assert(ranks_before(quote, s[i], s[i + 1]));
    }
}

/// A repeated price survives a permutation.
proof fn lemma_repeated_price_permutation(a: Seq<Order>, b: Seq<Order>)
    requires
        a.to_multiset() == b.to_multiset(),
        !has_distinct_prices(a),
    ensures
        !has_distinct_prices(b),
{
    let (i, j) = choose|i: int, j: int|
        0 <= i < j < a.len() && (#[trigger] a[i]).price_key() == (#[trigger] a[j]).price_key();
    let p = a[i].price_key();
    lemma_count_two_witnesses(a, i, j, at_price(p));
    lemma_count_permutation(a, b, at_price(p));
    let (k, l) = lemma_count_two_witnesses_back(b, at_price(p));
    assert(b[k].price_key() == b[l].price_key());
}

/// Permutations agree on whether prices are distinct.
pub proof fn lemma_distinct_prices_permutation(a: Seq<Order>, b: Seq<Order>)
    requires
        a.to_multiset() == b.to_multiset(),
    ensures
        has_distinct_prices(a) <==> has_distinct_prices(b),
{
    if !has_distinct_prices(a) {
        lemma_repeated_price_permutation(a, b);
    }
    if !has_distinct_prices(b) {
        lemma_repeated_price_permutation(b, a);
    }
}

/// Relies on std's `slice::sort_unstable_by_key`: it reorders the slice into
/// non-decreasing order of the key, here the price bits, keeping its elements.
#[verifier::external_body]
fn sort_by_price_bits(orders: &mut Vec<Order>)
    ensures
        final(orders)@.to_multiset() == old(orders)@.to_multiset(),
        forall|i: int, j: int|
            0 <= i < j < final(orders)@.len() ==> (#[trigger] final(orders)@[i]).price_key()
                <= (#[trigger] final(orders)@[j]).price_key(),
{
    orders.sort_unstable_by_key(|o| o.price_bits());
}

/// The orders in reverse.
fn reversed(orders: &Vec<Order>) -> (r: Vec<Order>)
    ensures
        r@ == orders@.reverse(),
{
    let n = orders.len();
    let mut r: Vec<Order> = Vec::with_capacity(n);
    let mut i: usize = n;
    while i > 0
        invariant
            n == orders@.len(),
            i <= n,
            r@ =~= orders@.reverse().take(n - i),
        decreases i,
    {
        i = i - 1;
        r.push(orders[i]);
        proof {
            assert(orders@.reverse().take(n - i) =~= orders@.reverse().take(n - i - 1).push(orders@[i as int]));
        }
    }
    proof {
        assert(orders@.reverse().take(n as int) =~= orders@.reverse());
    }
    r
}

/// The orders rearranged into the side's order.
pub fn sort_by_side<const QUOTE: bool>(orders: Vec<Order>) -> (r: Vec<Order>)
    ensures
        is_side_sorted(QUOTE, r@),
        r@.to_multiset() == orders@.to_multiset(),
{
    let mut sorted = orders;
    sort_by_price_bits(&mut sorted);
    if QUOTE {
        let r = reversed(&sorted);
        proof {
            sorted@.lemma_reverse_to_multiset();
            assert forall|i: int| 0 <= i && i + 1 < r@.len() implies !ranks_before(QUOTE, #[trigger] r@[i + 1], r@[i]) by {
                let n = sorted@.len();
                assert(r@[i] == sorted@[n - 1 - i]);
                assert(r@[i + 1] == sorted@[n - 1 - (i + 1)]);
                assert(sorted@[n - 1 - (i + 1)].price_key() <= sorted@[n - 1 - i].price_key());
            }
        }
        r
    } else {
        proof {
            assert forall|i: int| 0 <= i && i + 1 < sorted@.len() implies !ranks_before(QUOTE, #[trigger] sorted@[i + 1], sorted@[i]) by {
                assert(sorted@[i].price_key() <= sorted@[i + 1].price_key());
            }
        }
        sorted
    }
}

/// A validated, duplicate-free list of price-level changes in the side's order.
/// An empty order removes its level.
#[derive(Debug, PartialEq, Eq)]
pub struct OrderBookDiff<const QUOTE: bool>(Vec<Order>);

impl<const QUOTE: bool> View for OrderBookDiff<QUOTE> {
    type V = Seq<Order>;

    closed spec fn view(&self) -> Seq<Order> {
        self.0@
    }
}

pub type OrderBookDiffAsks = OrderBookDiff<ASK>;

pub type OrderBookDiffBids = OrderBookDiff<BID>;

impl<const QUOTE: bool> Default for OrderBookDiff<QUOTE> {
    /// The diff that changes nothing.
    fn default() -> (r: Self)
        ensures
            r@ == Seq::<Order>::empty(),
    {
        OrderBookDiff(Vec::new())
    }
}

impl<const QUOTE: bool> Clone for OrderBookDiff<QUOTE> {
    fn clone(&self) -> (r: Self)
        ensures
            r@ == self@,
    {
        proof {
            use_type_invariant(self);
        }
        OrderBookDiff(self.0.clone())
    }
}

impl<const QUOTE: bool> OrderBookDiff<QUOTE> {
    #[verifier::type_invariant]
    spec fn inv(self) -> bool {
        is_strictly_side_sorted(QUOTE, self.0@)
    }

    /// The orders of the diff, in the side's order.
    pub fn orders(&self) -> (r: &Vec<Order>)
        ensures
            r@ == self@,
            is_strictly_side_sorted(QUOTE, r@),
    {
        proof {
            use_type_invariant(self);
        }
        &self.0
    }

    /// Accepts orders that are already in the side's order and have distinct prices.
    pub fn new_sorted(orders: Vec<Order>) -> (r: Result<Self, OrderBookError>)
        ensures
            !is_side_sorted(QUOTE, orders@) <==> r == Err::<Self, OrderBookError>(
                OrderBookError::OrdersNotSortedAccordingToQuoteType,
            ),
            is_side_sorted(QUOTE, orders@) && !has_distinct_prices(orders@) <==> r == Err::<
                Self,
                OrderBookError,
            >(OrderBookError::HasOrderWithNotUniquePrice),
            is_side_sorted(QUOTE, orders@) && has_distinct_prices(orders@) <==> r is Ok,
            r is Ok ==> r->Ok_0@ == orders@,
    {
        let n = orders.len();
        let mut i: usize = 0;
        while i + 1 < n
            invariant
                n == orders@.len(),
                0 <= i <= n,
                i + 1 <= n || n == 0,
                forall|k: int| 0 <= k && k + 1 < n && k < i ==> !ranks_before(QUOTE, #[trigger] orders@[k + 1], orders@[k]),
            decreases n - i,
        {
            if price_ranks_before(QUOTE, orders[i + 1].price_bits(), orders[i].price_bits()) {
                return Err(OrderBookError::OrdersNotSortedAccordingToQuoteType);
            }
            i = i + 1;
        }
        Self::new_sorted_checked(orders)
    }

    /// Sorts the orders into the side's order and accepts them when their prices are distinct.
    pub fn new(orders: Vec<Order>) -> (r: Result<Self, OrderBookError>)
        ensures
            has_distinct_prices(orders@) <==> r is Ok,
            !has_distinct_prices(orders@) ==> r == Err::<Self, OrderBookError>(
                OrderBookError::HasOrderWithNotUniquePrice,
            ),
            r is Ok ==> is_strictly_side_sorted(QUOTE, r->Ok_0@),
            r is Ok ==> r->Ok_0@.to_multiset() == orders@.to_multiset(),
    {
        let ghost input = orders@;
        let sorted = sort_by_side::<QUOTE>(orders);
        proof {
            lemma_distinct_prices_permutation(input, sorted@);
        }
        Self::new_sorted_checked(sorted)
    }

    /// Accepts side-sorted orders whose neighbours have distinct prices.
    fn new_sorted_checked(orders: Vec<Order>) -> (r: Result<Self, OrderBookError>)
        requires
            is_side_sorted(QUOTE, orders@),
        ensures
            !has_distinct_prices(orders@) <==> r == Err::<Self, OrderBookError>(
                OrderBookError::HasOrderWithNotUniquePrice,
            ),
            has_distinct_prices(orders@) <==> r is Ok,
            r is Ok ==> r->Ok_0@ == orders@,
            r is Ok ==> is_strictly_side_sorted(QUOTE, r->Ok_0@),
    {
        let n = orders.len();
        let mut i: usize = 0;
        while i + 1 < n
            invariant
                n == orders@.len(),
                0 <= i <= n,
                i + 1 <= n || n == 0,
                is_side_sorted(QUOTE, orders@),
                forall|k: int| 0 <= k && k + 1 < n && k < i ==> ranks_before(QUOTE, #[trigger] orders@[k], orders@[k + 1]),
            decreases n - i,
        {
            if orders[i + 1].price_bits() == orders[i].price_bits() {
                proof {
                    assert(!has_distinct_prices(orders@)) by {
                        assert(orders@[i as int].price_key() == orders@[i + 1].price_key());
                    }
                }
                return Err(OrderBookError::HasOrderWithNotUniquePrice);
            }
            proof {
                let k = i as int;
                assert(!ranks_before(QUOTE, orders@[k + 1], orders@[k]));
            }
            i = i + 1;
        }
        proof {
            lemma_strictly_sorted_from_adjacent(QUOTE, orders@);
            lemma_strict_facts(QUOTE, orders@);
        }
        Ok(OrderBookDiff(orders))
    }
}


/// The first `count` orders of `s`, or all of them when there are fewer.
pub open spec fn kept<T>(s: Seq<T>, count: int) -> Seq<T> {
    if s.len() < count {
        s
    } else {
        s.take(count)
    }
}

/// What a book of the given side and depth holds: strictly sorted, no empty
/// order, at most `count` levels.
pub open spec fn is_valid_book(quote: bool, count: int, s: Seq<Order>) -> bool {
    &&& is_strictly_side_sorted(quote, s)
    &&& has_no_empty(s)
    &&& s.len() <= count
}

/// The outcome of validating the first `count` orders of `orders`, the levels a
/// book keeps: an empty one is refused first, then a repeated price; otherwise
/// they are the book. Orders past the cap are dropped unchecked.
pub open spec fn kept_outcome(count: int, orders: Seq<Order>) -> Result<Seq<Order>, OrderBookError> {
    if !has_no_empty(kept(orders, count)) {
        Err(OrderBookError::HasOrderWithEmptyAmount)
    } else if !has_distinct_prices(kept(orders, count)) {
        Err(OrderBookError::HasOrderWithNotUniquePrice)
    } else {
        Ok(kept(orders, count))
    }
}

/// The levels of a book, or the error, of a construction's result.
pub open spec fn book_levels<const QUOTE: bool, const COUNT: usize>(
    r: Result<OrderBook<QUOTE, COUNT>, OrderBookError>,
) -> Result<Seq<Order>, OrderBookError> {
    match r {
        Ok(b) => Ok(b@),
        Err(e) => Err(e),
    }
}

/// `book` holds the best levels of `orders`: a valid book with as many levels as
/// `orders` and the cap allow, taken from `orders`, such that no order left out
/// ranks strictly before a kept one.
pub open spec fn is_best_levels(quote: bool, count: int, orders: Seq<Order>, book: Seq<Order>) -> bool {
    &&& is_valid_book(quote, count, book)
    &&& book.len() == kept(orders, count).len()
    &&& forall|i: int| 0 <= i < book.len() ==> orders.contains(#[trigger] book[i])
    &&& forall|x: Order, i: int|
        #![trigger orders.contains(x), book[i]]
        orders.contains(x) && !book.contains(x) && 0 <= i < book.len() ==> !ranks_before(quote, x, book[i])
}

/// A side-sorted sequence with distinct prices is strictly sorted.
proof fn lemma_sorted_distinct_strict(quote: bool, s: Seq<Order>)
    requires
        is_side_sorted(quote, s),
        has_distinct_prices(s),
    ensures
        is_strictly_side_sorted(quote, s),
{
    assert forall|i: int| 0 <= i && i + 1 < s.len() implies ranks_before(quote, #[trigger] s[i], s[i + 1]) by {
        assert(!ranks_before(quote, s[i + 1], s[i]));
        assert(s[i].price_key() != s[i + 1].price_key());
    }
    lemma_strictly_sorted_from_adjacent(quote, s);
}

/// A validated book of one side: the best `COUNT` price levels, strictly sorted,
/// none of them empty.
#[derive(Debug, PartialEq, Eq)]
pub struct OrderBook<const QUOTE: bool, const COUNT: usize>(OrderBookDiff<QUOTE>);

impl<const QUOTE: bool, const COUNT: usize> View for OrderBook<QUOTE, COUNT> {
    type V = Seq<Order>;

    closed spec fn view(&self) -> Seq<Order> {
        self.0@
    }
}

pub type OrderBookAsks = OrderBook<ASK, BEST_ORDER_BOOK_SIZE>;

pub type OrderBookBids = OrderBook<BID, BEST_ORDER_BOOK_SIZE>;

impl<const QUOTE: bool, const COUNT: usize> Default for OrderBook<QUOTE, COUNT> {
    /// The book with no levels.
    fn default() -> (r: Self)
        ensures
            r@ == Seq::<Order>::empty(),
    {
        OrderBook(OrderBookDiff(Vec::new()))
    }
}

impl<const QUOTE: bool, const COUNT: usize> Clone for OrderBook<QUOTE, COUNT> {
    fn clone(&self) -> (r: Self)
        ensures
            r@ == self@,
    {
        proof {
            use_type_invariant(self);
        }
        OrderBook(OrderBookDiff(self.0.0.clone()))
    }
}

impl<const QUOTE: bool, const COUNT: usize> OrderBook<QUOTE, COUNT> {
    #[verifier::type_invariant]
    spec fn inv(self) -> bool {
        is_valid_book(QUOTE, COUNT as int, self.0.0@)
    }

    /// The levels of the book, best first.
    pub fn orders(&self) -> (r: &Vec<Order>)
        ensures
            r@ == self@,
            is_valid_book(QUOTE, COUNT as int, r@),
    {
        proof {
            use_type_invariant(self);
        }
        &self.0.0
    }

    /// The book seen as a diff that sets each of its levels.
    pub fn as_diff(&self) -> (r: &OrderBookDiff<QUOTE>)
        ensures
            r@ == self@,
    {
        &self.0
    }

    /// Accepts orders whose first `COUNT` are in the side's order, and keeps those.
    pub fn new_sorted(orders: Vec<Order>) -> (r: Result<Self, OrderBookError>)
        ensures
            !is_side_sorted(QUOTE, kept(orders@, COUNT as int)) <==> r == Err::<Self, OrderBookError>(
                OrderBookError::OrdersNotSortedAccordingToQuoteType,
            ),
            is_side_sorted(QUOTE, kept(orders@, COUNT as int)) ==> book_levels(r) == kept_outcome(
                COUNT as int,
                orders@,
            ),
            r is Ok ==> is_valid_book(QUOTE, COUNT as int, r->Ok_0@),
    {
        let n = orders.len();
        let m = if n < COUNT {
            n
        } else {
            COUNT
        };
        let ghost w = kept(orders@, COUNT as int);
        let mut i: usize = 0;
        while i + 1 < m
            invariant
                n == orders@.len(),
                m as int == w.len(),
                w == kept(orders@, COUNT as int),
                0 <= i <= m,
                i + 1 <= m || m == 0,
                forall|k: int| 0 <= k && k + 1 < m && k < i ==> !ranks_before(QUOTE, #[trigger] w[k + 1], w[k]),
            decreases m - i,
        {
            if price_ranks_before(QUOTE, orders[i + 1].price_bits(), orders[i].price_bits()) {
                proof {
                    let k = i as int;
                    assert(w[k] == orders@[k] && w[k + 1] == orders@[k + 1]);
                }
                return Err(OrderBookError::OrdersNotSortedAccordingToQuoteType);
            }
            proof {
                let k = i as int;
                assert(w[k] == orders@[k] && w[k + 1] == orders@[k + 1]);
            }
            i = i + 1;
        }
        Self::new_checked(orders)
    }

    /// Checks the kept orders of a sequence whose kept part is side-sorted.
    fn new_checked(orders: Vec<Order>) -> (r: Result<Self, OrderBookError>)
        requires
            is_side_sorted(QUOTE, kept(orders@, COUNT as int)),
        ensures
            book_levels(r) == kept_outcome(COUNT as int, orders@),
            r is Ok ==> is_valid_book(QUOTE, COUNT as int, r->Ok_0@),
    {
        let n = orders.len();
        let m = if n < COUNT {
            n
        } else {
            COUNT
        };
        let ghost w = kept(orders@, COUNT as int);
        let mut j: usize = 0;
        while j < m
            invariant
                n == orders@.len(),
                m as int == w.len(),
                w == kept(orders@, COUNT as int),
                0 <= j <= m,
                forall|k: int| 0 <= k < j ==> !(#[trigger] w[k]).spec_is_empty(),
            decreases m - j,
        {
            if orders[j].is_empty() {
                proof {
                    assert(w[j as int] == orders@[j as int]);
                }
                return Err(OrderBookError::HasOrderWithEmptyAmount);
            }
            proof {
                assert(w[j as int] == orders@[j as int]);
            }
            j = j + 1;
        }
        let mut i: usize = 0;
        while i + 1 < m
            invariant
                n == orders@.len(),
                m as int == w.len(),
                w == kept(orders@, COUNT as int),
                0 <= i <= m,
                i + 1 <= m || m == 0,
                has_no_empty(w),
                forall|k: int| 0 <= k && k + 1 < m && k < i ==> (#[trigger] w[k]).price_key() != w[k + 1].price_key(),
            decreases m - i,
        {
            proof {
                let k = i as int;
                assert(w[k] == orders@[k] && w[k + 1] == orders@[k + 1]);
            }
            if orders[i + 1].price_bits() == orders[i].price_bits() {
                proof {
                    let k = i as int;
                    assert(w[k].price_key() == w[k + 1].price_key());
                    assert(!has_distinct_prices(w));
                }
                return Err(OrderBookError::HasOrderWithNotUniquePrice);
            }
            i = i + 1;
        }
        proof {
            lemma_sorted_distinct_strict_adjacent(QUOTE, w);
            lemma_strict_facts(QUOTE, w);
        }
        let mut orders = orders;
        orders.truncate(m);
        proof {
            assert(orders@ =~= w);
        }
        let r = OrderBook(OrderBookDiff(orders));
        proof {
            assert(r@ == w);
        }
        Ok(r)
    }

    /// Ranks the orders by the side's order and validates the best `COUNT` as
    /// `new_sorted` does. Which of several orders at the price of the last kept
    /// level is kept is left open.
    pub fn new(orders: Vec<Order>) -> (r: Result<Self, OrderBookError>)
        ensures
            exists|s: Seq<Order>|
                #![trigger s.to_multiset()]
                is_side_sorted(QUOTE, s) && s.to_multiset() == orders@.to_multiset() && book_levels(r)
                    == kept_outcome(COUNT as int, s),
            r is Ok ==> is_best_levels(QUOTE, COUNT as int, orders@, r->Ok_0@),
    {
        let ghost v = orders@;
        let sorted = sort_by_side::<QUOTE>(orders);
        proof {
            lemma_kept_sorted(QUOTE, sorted@, COUNT as int);
        }
        let r = Self::new_checked(sorted);
        proof {
            assert(sorted@.to_multiset() == v.to_multiset());
            if r is Ok {
                lemma_best_levels(QUOTE, COUNT as int, v, sorted@);
            }
        }
        r
    }
}

/// The kept part of a side-sorted sequence is side-sorted.
proof fn lemma_kept_sorted(quote: bool, s: Seq<Order>, count: int)
    requires
        is_side_sorted(quote, s),
        count >= 0,
    ensures
        is_side_sorted(quote, kept(s, count)),
{
    let w = kept(s, count);
    assert forall|i: int| 0 <= i && i + 1 < w.len() implies !ranks_before(quote, #[trigger] w[i + 1], w[i]) by {
        assert(w[i] == s[i]);
        assert(w[i + 1] == s[i + 1]);
    }
}

/// A side-sorted sequence whose neighbours have distinct prices is strictly sorted.
proof fn lemma_sorted_distinct_strict_adjacent(quote: bool, s: Seq<Order>)
    requires
        is_side_sorted(quote, s),
        forall|k: int| 0 <= k && k + 1 < s.len() ==> (#[trigger] s[k]).price_key() != s[k + 1].price_key(),
    ensures
        is_strictly_side_sorted(quote, s),
{
    assert forall|i: int| 0 <= i && i + 1 < s.len() implies ranks_before(quote, #[trigger] s[i], s[i + 1]) by {
        assert(!ranks_before(quote, s[i + 1], s[i]));
        assert(s[i].price_key() != s[i + 1].price_key());
    }
    lemma_strictly_sorted_from_adjacent(quote, s);
}

/// An element of a sequence is an element of each of its permutations.
proof fn lemma_contains_permutation(a: Seq<Order>, b: Seq<Order>, x: Order)
    requires
        a.to_multiset() == b.to_multiset(),
        a.contains(x),
    ensures
        b.contains(x),
{
    broadcast use group_to_multiset_ensures;

    assert(a.to_multiset().count(x) > 0);
    assert(b.to_multiset().count(x) > 0);
}

/// The kept part of a side-sorted permutation of `v`, once validated, holds the
/// best levels of `v`.
pub proof fn lemma_best_levels(quote: bool, count: int, v: Seq<Order>, s: Seq<Order>)
    requires
        is_side_sorted(quote, s),
        s.to_multiset() == v.to_multiset(),
        count >= 0,
        kept_outcome(count, s) is Ok,
    ensures
        is_best_levels(quote, count, v, kept(s, count)),
{
    broadcast use group_to_multiset_ensures;

    let w = kept(s, count);
    assert(s.len() == s.to_multiset().len());
    assert(v.len() == v.to_multiset().len());
    lemma_kept_sorted(quote, s, count);
    lemma_sorted_distinct_strict(quote, w);
    lemma_sorted_all_pairs(quote, s);
    assert forall|i: int| 0 <= i < w.len() implies v.contains(#[trigger] w[i]) by {
        assert(w[i] == s[i]);
        assert(s.contains(s[i]));
        lemma_contains_permutation(s, v, s[i]);
    }
    assert forall|x: Order, i: int|
        #![trigger v.contains(x), w[i]]
        v.contains(x) && !w.contains(x) && 0 <= i < w.len() implies !ranks_before(quote, x, w[i]) by {
        lemma_contains_permutation(v, s, x);
        let k = choose|k: int| 0 <= k < s.len() && s[k] == x;
        if k < w.len() {
            assert(w[k] == s[k]);
        }
        assert(w[i] == s[i]);
    }
}

/// The two-way merge of a book and a diff, both in the side's order: at each step
/// the order that ranks first is taken, and at an equal price the diff's order
/// replaces the book's.
pub open spec fn merged(quote: bool, book: Seq<Order>, diff: Seq<Order>) -> Seq<Order>
    decreases book.len() + diff.len(),
{
    if book.len() == 0 {
        diff
    } else if diff.len() == 0 {
        book
    } else if ranks_before(quote, book[0], diff[0]) {
        seq![book[0]] + merged(quote, book.drop_first(), diff)
    } else if ranks_before(quote, diff[0], book[0]) {
        seq![diff[0]] + merged(quote, book, diff.drop_first())
    } else {
        seq![diff[0]] + merged(quote, book.drop_first(), diff.drop_first())
    }
}

/// The non-empty orders of `s`, in order.
pub open spec fn live(s: Seq<Order>) -> Seq<Order> {
    s.filter(|o: Order| !o.spec_is_empty())
}

/// The levels of a book of depth `count` after a diff is applied: the merge, with
/// deleted levels dropped, cut to the first `count`.
pub open spec fn updated(quote: bool, count: int, book: Seq<Order>, diff: Seq<Order>) -> Seq<Order> {
    kept(live(merged(quote, book, diff)), count)
}

/// The merge of two strictly sorted sequences is strictly sorted, and takes its
/// orders from them.
pub proof fn lemma_merged_sorted(quote: bool, book: Seq<Order>, diff: Seq<Order>)
    requires
        is_strictly_side_sorted(quote, book),
        is_strictly_side_sorted(quote, diff),
    ensures
        is_strictly_side_sorted(quote, merged(quote, book, diff)),
        forall|k: int|
            0 <= k < merged(quote, book, diff).len() ==> book.contains(
                #[trigger] merged(quote, book, diff)[k],
            ) || diff.contains(merged(quote, book, diff)[k]),
    decreases book.len() + diff.len(),
{
    let m = merged(quote, book, diff);
    if book.len() == 0 || diff.len() == 0 {
    } else {
        let b1 = book.drop_first();
        let d1 = diff.drop_first();
        let (h, t, bt, dt) = if ranks_before(quote, book[0], diff[0]) {
            (book[0], merged(quote, b1, diff), b1, diff)
        } else if ranks_before(quote, diff[0], book[0]) {
            (diff[0], merged(quote, book, d1), book, d1)
        } else {
            (diff[0], merged(quote, b1, d1), b1, d1)
        };
        assert(is_strictly_side_sorted(quote, b1)) by {
            assert forall|i: int, j: int| 0 <= i < j < b1.len() implies ranks_before(quote, #[trigger] b1[i], #[trigger] b1[j]) by {
                assert(b1[i] == book[i + 1] && b1[j] == book[j + 1]);
            }
        }
        assert(is_strictly_side_sorted(quote, d1)) by {
            assert forall|i: int, j: int| 0 <= i < j < d1.len() implies ranks_before(quote, #[trigger] d1[i], #[trigger] d1[j]) by {
                assert(d1[i] == diff[i + 1] && d1[j] == diff[j + 1]);
            }
        }
        lemma_merged_sorted(quote, bt, dt);
        assert(m == seq![h] + t);
        assert forall|x: Order| bt.contains(x) || dt.contains(x) implies ranks_before(quote, h, x) by {
            if bt.contains(x) {
                let i = choose|i: int| 0 <= i < bt.len() && bt[i] == x;
                if bt == b1 {
                    assert(b1[i] == book[i + 1]);
                    assert(ranks_before(quote, book[0], book[i + 1]));
                } else {
                    if i > 0 {
                        assert(ranks_before(quote, book[0], book[i]));
                    }
                }
            } else {
                let i = choose|i: int| 0 <= i < dt.len() && dt[i] == x;
                if dt == d1 {
                    assert(d1[i] == diff[i + 1]);
                    assert(ranks_before(quote, diff[0], diff[i + 1]));
                } else {
                    if i > 0 {
                        assert(ranks_before(quote, diff[0], diff[i]));
                    }
                }
            }
        }
        assert forall|i: int, j: int| 0 <= i < j < m.len() implies ranks_before(quote, #[trigger] m[i], #[trigger] m[j]) by {
            assert(m[j] == t[j - 1]);
            if i > 0 {
                assert(m[i] == t[i - 1]);
            } else {
                assert(bt.contains(t[j - 1]) || dt.contains(t[j - 1]));
            }
        }
        assert forall|k: int| 0 <= k < m.len() implies book.contains(#[trigger] m[k]) || diff.contains(m[k]) by {
            if k == 0 {
                assert(book[0] == book[0]);
                assert(diff[0] == diff[0]);
            } else {
                assert(m[k] == t[k - 1]);
                assert(bt.contains(t[k - 1]) || dt.contains(t[k - 1]));
                if bt.contains(t[k - 1]) {
                    let i = choose|i: int| 0 <= i < bt.len() && bt[i] == t[k - 1];
                    if bt == b1 {
                        assert(book[i + 1] == b1[i]);
                    }
                }
                if dt.contains(t[k - 1]) {
                    let i = choose|i: int| 0 <= i < dt.len() && dt[i] == t[k - 1];
                    if dt == d1 {
                        assert(diff[i + 1] == d1[i]);
                    }
                }
            }
        }
    }
}

/// Dropping empty orders keeps a sequence strictly sorted and leaves no empty order.
pub proof fn lemma_live_sorted(quote: bool, s: Seq<Order>)
    requires
        is_strictly_side_sorted(quote, s),
    ensures
        is_strictly_side_sorted(quote, live(s)),
        has_no_empty(live(s)),
        forall|k: int| 0 <= k < live(s).len() ==> s.contains(#[trigger] live(s)[k]),
    decreases s.len(),
{
    broadcast use Seq::lemma_filter_push;

    if s.len() == 0 {
        reveal(Seq::filter);
    } else {
        let t = s.drop_last();
        let x = s.last();
        assert(t.push(x) =~= s);
        assert(is_strictly_side_sorted(quote, t)) by {
            assert forall|i: int, j: int| 0 <= i < j < t.len() implies ranks_before(quote, #[trigger] t[i], #[trigger] t[j]) by {
                assert(t[i] == s[i] && t[j] == s[j]);
            }
        }
        lemma_live_sorted(quote, t);
        let lt = live(t);
        assert(live(s) == if !x.spec_is_empty() {
            lt.push(x)
        } else {
            lt
        });
        assert forall|k: int| 0 <= k < lt.len() implies ranks_before(quote, #[trigger] lt[k], x) && s.contains(lt[k]) by {
            assert(t.contains(lt[k]));
            let i = choose|i: int| 0 <= i < t.len() && t[i] == lt[k];
            assert(s[i] == t[i]);
            assert(ranks_before(quote, s[i], s[s.len() - 1]));
        }
        if !x.spec_is_empty() {
            let l = live(s);
            assert forall|i: int, j: int| 0 <= i < j < l.len() implies ranks_before(quote, #[trigger] l[i], #[trigger] l[j]) by {
                assert(l[i] == lt[i]);
                if j < lt.len() {
                    assert(l[j] == lt[j]);
                }
            }
            assert forall|k: int| 0 <= k < l.len() implies s.contains(#[trigger] l[k]) by {
                if k < lt.len() {
                    assert(l[k] == lt[k]);
                } else {
                    assert(s[s.len() - 1] == x);
                }
            }
        }
    }
}

/// The kept part of a strictly sorted sequence is strictly sorted, and is one of its prefixes.
pub proof fn lemma_kept_prefix(quote: bool, s: Seq<Order>, count: int)
    requires
        is_strictly_side_sorted(quote, s),
        has_no_empty(s),
        count >= 0,
    ensures
        is_valid_book(quote, count, kept(s, count)),
        forall|k: int| 0 <= k < kept(s, count).len() ==> #[trigger] kept(s, count)[k] == s[k],
{
    let w = kept(s, count);
    assert forall|i: int, j: int| 0 <= i < j < w.len() implies ranks_before(quote, #[trigger] w[i], #[trigger] w[j]) by {
        assert(w[i] == s[i] && w[j] == s[j]);
    }
    assert forall|i: int| 0 <= i < w.len() implies !(#[trigger] w[i]).spec_is_empty() by {
        assert(w[i] == s[i]);
    }
}

/// Merges `book` with `diff` in one pass over both.
fn merge_orders<const QUOTE: bool>(book: &Vec<Order>, diff: &Vec<Order>) -> (r: Vec<Order>)
    ensures
        r@ == merged(QUOTE, book@, diff@),
{
    let bn = book.len();
    let dn = diff.len();
    let mut r: Vec<Order> = Vec::new();
    let mut i: usize = 0;
    let mut j: usize = 0;
    proof {
        assert(book@.skip(0) =~= book@);
        assert(diff@.skip(0) =~= diff@);
        assert(r@ + merged(QUOTE, book@, diff@) =~= merged(QUOTE, book@, diff@));
    }
    while i < bn || j < dn
        invariant
            bn == book@.len(),
            dn == diff@.len(),
            i <= bn,
            j <= dn,
            r@ + merged(QUOTE, book@.skip(i as int), diff@.skip(j as int)) == merged(QUOTE, book@, diff@),
        decreases bn - i + dn - j,
    {
        let ghost bs = book@.skip(i as int);
        let ghost ds = diff@.skip(j as int);
        let ghost before = r@;
        if i == bn {
            r.push(diff[j]);
            proof {
                assert(ds =~= seq![diff@[j as int]] + diff@.skip(j + 1));
                assert(bs.len() == 0);
                assert(book@.skip(i as int).len() == 0);
                assert(merged(QUOTE, book@.skip(i as int), diff@.skip(j + 1)) == diff@.skip(j + 1));
            }
            j = j + 1;
        } else if j == dn {
            r.push(book[i]);
            proof {
                assert(bs =~= seq![book@[i as int]] + book@.skip(i + 1));
                assert(ds.len() == 0);
                assert(merged(QUOTE, book@.skip(i + 1), diff@.skip(j as int)) == book@.skip(i + 1));
            }
            i = i + 1;
        } else {
            let bp = book[i].price_bits();
            let dp = diff[j].price_bits();
            proof {
                assert(bs[0] == book@[i as int]);
                assert(ds[0] == diff@[j as int]);
                assert(bs.drop_first() =~= book@.skip(i + 1));
                assert(ds.drop_first() =~= diff@.skip(j + 1));
            }
            if price_ranks_before(QUOTE, bp, dp) {
                r.push(book[i]);
                i = i + 1;
            } else if price_ranks_before(QUOTE, dp, bp) {
                r.push(diff[j]);
                j = j + 1;
            } else {
                r.push(diff[j]);
                i = i + 1;
                j = j + 1;
            }
        }
        proof {
            assert(r@ + merged(QUOTE, book@.skip(i as int), diff@.skip(j as int)) =~= merged(QUOTE, book@, diff@));
        }
    }
    proof {
        assert(book@.skip(i as int).len() == 0);
        assert(diff@.skip(j as int).len() == 0);
        assert(r@ + merged(QUOTE, book@.skip(i as int), diff@.skip(j as int)) =~= r@);
    }
    r
}

impl<const QUOTE: bool> OrderBookDiff<QUOTE> {
    /// This diff merged with `diff`: both sets of levels, with `diff` replacing this
    /// one's order wherever they share a price. Empty orders are kept.
    pub fn merge(&self, diff: &OrderBookDiff<QUOTE>) -> (r: OrderBookDiff<QUOTE>)
        ensures
            r@ == merged(QUOTE, self@, diff@),
    {
        proof {
            use_type_invariant(self);
            use_type_invariant(diff);
            lemma_merged_sorted(QUOTE, self@, diff@);
        }
        OrderBookDiff(merge_orders::<QUOTE>(&self.0, &diff.0))
    }
}

impl<const QUOTE: bool, const COUNT: usize> OrderBook<QUOTE, COUNT> {
    /// The book after `diff` is applied: a diff order at a new price inserts a
    /// level, one at a known price replaces it, an empty one deletes it; the
    /// result keeps the best `COUNT` levels.
    pub fn update(&self, diff: &OrderBookDiff<QUOTE>) -> (r: OrderBook<QUOTE, COUNT>)
        ensures
            r@ == updated(QUOTE, COUNT as int, self@, diff@),
            is_valid_book(QUOTE, COUNT as int, r@),
    {
        proof {
            use_type_invariant(self);
            use_type_invariant(&self.0);
            use_type_invariant(diff);
            lemma_merged_sorted(QUOTE, self@, diff@);
            lemma_live_sorted(QUOTE, merged(QUOTE, self@, diff@));
            lemma_kept_prefix(QUOTE, live(merged(QUOTE, self@, diff@)), COUNT as int);
        }
        let all = merge_orders::<QUOTE>(&self.0.0, &diff.0);
        let ghost target = live(all@);
        let mut out: Vec<Order> = Vec::with_capacity(COUNT);
        let mut k: usize = 0;
        while k < all.len() && out.len() < COUNT
            invariant
                all@ == merged(QUOTE, self@, diff@),
                target == live(all@),
                k <= all@.len(),
                out@ == live(all@.take(k as int)),
                out@.len() <= COUNT,
            decreases all@.len() - k,
        {
            proof {
                assert(all@.take(k + 1) =~= all@.take(k as int).push(all@[k as int]));
                broadcast use Seq::lemma_filter_push;
            }
            if !all[k].is_empty() {
                out.push(all[k]);
            }
            k = k + 1;
        }
        proof {
            let f = |o: Order| !o.spec_is_empty();
            assert(all@ =~= all@.take(k as int) + all@.skip(k as int));
            Seq::filter_distributes_over_add(all@.take(k as int), all@.skip(k as int), f);
            if k == all@.len() {
                assert(all@.take(k as int) =~= all@);
            }
            assert(out@ =~= kept(target, COUNT as int));
        }
        OrderBook(OrderBookDiff(out))
    }
}


/// The orders of a merge are those of the diff, and those of the book at a
/// price the diff does not touch.
pub proof fn lemma_merged_members(quote: bool, book: Seq<Order>, diff: Seq<Order>, x: Order)
    requires
        is_strictly_side_sorted(quote, book),
        is_strictly_side_sorted(quote, diff),
    ensures
        merged(quote, book, diff).contains(x) <==> diff.contains(x) || (book.contains(x)
            && !has_price(diff, x.price_key())),
    decreases book.len() + diff.len(),
{
    let m = merged(quote, book, diff);
    if book.len() == 0 {
    } else if diff.len() == 0 {
    } else {
        let b1 = book.drop_first();
        let d1 = diff.drop_first();
        lemma_drop_first_strict(quote, book);
        lemma_drop_first_strict(quote, diff);
        let (h, bt, dt) = if ranks_before(quote, book[0], diff[0]) {
            (book[0], b1, diff)
        } else if ranks_before(quote, diff[0], book[0]) {
            (diff[0], book, d1)
        } else {
            (diff[0], b1, d1)
        };
        lemma_merged_members(quote, bt, dt, x);
        let t = merged(quote, bt, dt);
        assert(m == seq![h] + t);
        assert(m.contains(x) <==> x == h || t.contains(x)) by {
            assert(m[0] == h);
            if t.contains(x) {
                let k = choose|k: int| 0 <= k < t.len() && t[k] == x;
                assert(m[k + 1] == t[k]);
            }
            if m.contains(x) && x != h {
                let k = choose|k: int| 0 <= k < m.len() && m[k] == x;
                assert(m[0] == h);
                assert(t[k - 1] == m[k]);
            }
        }
        lemma_contains_drop_first(book, x);
        lemma_contains_drop_first(diff, x);
        lemma_has_price_drop_first(diff, x.price_key());
        if diff.contains(x) && x != diff[0] {
            let k = choose|k: int| 0 <= k < diff.len() && diff[k] == x;
            assert(ranks_before(quote, diff[0], diff[k]));
        }
        if book.contains(x) && x != book[0] {
            let k = choose|k: int| 0 <= k < book.len() && book[k] == x;
            assert(ranks_before(quote, book[0], book[k]));
            if has_price(diff, x.price_key()) {
                let j = choose|j: int| 0 <= j < diff.len() && (#[trigger] diff[j]).price_key() == x.price_key();
                if j > 0 {
                    assert(ranks_before(quote, diff[0], diff[j]));
                }
            }
        }
        if has_price(diff, book[0].price_key()) {
            let j = choose|j: int| 0 <= j < diff.len() && (#[trigger] diff[j]).price_key() == book[0].price_key();
            if j > 0 {
                assert(ranks_before(quote, diff[0], diff[j]));
            }
        }
    }
}

/// Dropping the first order keeps a sequence strictly sorted.
proof fn lemma_drop_first_strict(quote: bool, s: Seq<Order>)
    requires
        is_strictly_side_sorted(quote, s),
        s.len() > 0,
    ensures
        is_strictly_side_sorted(quote, s.drop_first()),
{
    let t = s.drop_first();
    assert forall|i: int, j: int| 0 <= i < j < t.len() implies ranks_before(quote, #[trigger] t[i], #[trigger] t[j]) by {
        assert(t[i] == s[i + 1] && t[j] == s[j + 1]);
    }
}

/// Membership in a sequence is membership of its head or of the rest.
proof fn lemma_contains_drop_first(s: Seq<Order>, x: Order)
    requires
        s.len() > 0,
    ensures
        s.contains(x) <==> x == s[0] || s.drop_first().contains(x),
{
    if s.drop_first().contains(x) {
        let k = choose|k: int| 0 <= k < s.drop_first().len() && s.drop_first()[k] == x;
        assert(s[k + 1] == x);
    }
    if s.contains(x) && x != s[0] {
        let k = choose|k: int| 0 <= k < s.len() && s[k] == x;
        assert(s.drop_first()[k - 1] == x);
    }
}

/// A price occurs in a sequence when it is the head's or occurs in the rest.
proof fn lemma_has_price_drop_first(s: Seq<Order>, p: u64)
    requires
        s.len() > 0,
    ensures
        has_price(s, p) <==> s[0].price_key() == p || has_price(s.drop_first(), p),
{
    if has_price(s.drop_first(), p) {
        let k = choose|k: int| 0 <= k < s.drop_first().len() && (#[trigger] s.drop_first()[k]).price_key() == p;
        assert(s[k + 1] == s.drop_first()[k]);
    }
    if has_price(s, p) && s[0].price_key() != p {
        let k = choose|k: int| 0 <= k < s.len() && (#[trigger] s[k]).price_key() == p;
        assert(s.drop_first()[k - 1] == s[k]);
    }
}

/// Strictly sorted sequences with the same orders are equal.
pub proof fn lemma_strict_same_members(quote: bool, a: Seq<Order>, b: Seq<Order>)
    requires
        is_strictly_side_sorted(quote, a),
        is_strictly_side_sorted(quote, b),
        forall|x: Order| a.contains(x) <==> b.contains(x),
    ensures
        a == b,
    decreases a.len(),
{
    if a.len() == 0 {
        if b.len() > 0 {
            assert(b.contains(b[0]));
        }
        assert(a =~= b);
    } else {
        assert(a.contains(a[0]));
        let i = choose|i: int| 0 <= i < b.len() && b[i] == a[0];
        assert(b.contains(b[0]));
        let j = choose|j: int| 0 <= j < a.len() && a[j] == b[0];
        if i > 0 {
            assert(ranks_before(quote, b[0], b[i]));
            if j > 0 {
                assert(ranks_before(quote, a[0], a[j]));
            }
        }
        assert(a[0] == b[0]);
        lemma_drop_first_strict(quote, a);
        lemma_drop_first_strict(quote, b);
        assert forall|x: Order| a.drop_first().contains(x) <==> b.drop_first().contains(x) by {
            lemma_contains_drop_first(a, x);
            lemma_contains_drop_first(b, x);
            if a.drop_first().contains(x) {
                let k = choose|k: int| 0 <= k < a.drop_first().len() && a.drop_first()[k] == x;
                assert(ranks_before(quote, a[0], a[k + 1]));
            }
            if b.drop_first().contains(x) {
                let k = choose|k: int| 0 <= k < b.drop_first().len() && b.drop_first()[k] == x;
                assert(ranks_before(quote, b[0], b[k + 1]));
            }
        }
        lemma_strict_same_members(quote, a.drop_first(), b.drop_first());
        assert(a =~= seq![a[0]] + a.drop_first());
        assert(b =~= seq![b[0]] + b.drop_first());
    }
}

/// A strictly sorted sequence that holds every order of `p`, and otherwise only
/// orders ranking after all of `p`, starts with `p`.
proof fn lemma_strict_starts_with(quote: bool, a: Seq<Order>, p: Seq<Order>)
    requires
        is_strictly_side_sorted(quote, a),
        is_strictly_side_sorted(quote, p),
        forall|x: Order| p.contains(x) ==> a.contains(x),
        forall|x: Order, y: Order| a.contains(x) && !p.contains(x) && p.contains(y) ==> ranks_before(quote, y, x),
    ensures
        p.len() <= a.len(),
        a.take(p.len() as int) == p,
    decreases p.len(),
{
    if p.len() == 0 {
        assert(a.take(0) =~= p);
    } else {
        assert(p.contains(p[0]));
        let i = choose|i: int| 0 <= i < a.len() && a[i] == p[0];
        assert(a.contains(a[0]));
        if i > 0 {
            assert(ranks_before(quote, a[0], a[i]));
            if p.contains(a[0]) {
                let j = choose|j: int| 0 <= j < p.len() && p[j] == a[0];
                if j > 0 {
                    assert(ranks_before(quote, p[0], p[j]));
                }
            } else {
                assert(p.contains(p[0]));
                assert(ranks_before(quote, p[0], a[0]));
            }
        }
        assert(a[0] == p[0]);
        lemma_drop_first_strict(quote, a);
        lemma_drop_first_strict(quote, p);
        let a1 = a.drop_first();
        let pt = p.drop_first();
        assert forall|x: Order| pt.contains(x) implies a1.contains(x) by {
            lemma_contains_drop_first(p, x);
            lemma_contains_drop_first(a, x);
            let k = choose|k: int| 0 <= k < pt.len() && pt[k] == x;
            assert(ranks_before(quote, p[0], p[k + 1]));
        }
        assert forall|x: Order, y: Order| a1.contains(x) && !pt.contains(x) && pt.contains(y) implies ranks_before(quote, y, x) by {
            lemma_contains_drop_first(p, x);
            lemma_contains_drop_first(a, x);
            lemma_contains_drop_first(p, y);
            let k = choose|k: int| 0 <= k < a1.len() && a1[k] == x;
            assert(ranks_before(quote, a[0], a[k + 1]));
        }
        lemma_strict_starts_with(quote, a1, pt);
        assert(a.take(p.len() as int) =~= seq![a[0]] + a1.take(pt.len() as int));
        assert(p =~= seq![p[0]] + pt);
    }
}

/// The non-empty orders of `s` are those of its orders that are not empty.
proof fn lemma_live_members(s: Seq<Order>, x: Order)
    ensures
        live(s).contains(x) <==> s.contains(x) && !x.spec_is_empty(),
    decreases s.len(),
{
    broadcast use Seq::lemma_filter_push;

    if s.len() == 0 {
        reveal(Seq::filter);
    } else {
        let t = s.drop_last();
        assert(t.push(s.last()) =~= s);
        lemma_live_members(t, x);
        if s.contains(x) && !s.drop_last().contains(x) {
            let k = choose|k: int| 0 <= k < s.len() && s[k] == x;
            if k < s.len() - 1 {
                assert(t[k] == x);
            }
        }
        if t.contains(x) {
            let k = choose|k: int| 0 <= k < t.len() && t[k] == x;
            assert(s[k] == x);
        }
        assert(s[s.len() - 1] == s.last());
    }
}

/// Applying the empty diff leaves a book unchanged.
pub proof fn lemma_update_identity(quote: bool, count: int, book: Seq<Order>)
    requires
        is_valid_book(quote, count, book),
    ensures
        updated(quote, count, book, Seq::<Order>::empty()) == book,
{
    let m = merged(quote, book, Seq::<Order>::empty());
    assert(m == book);
    lemma_live_sorted(quote, book);
    assert forall|x: Order| live(book).contains(x) <==> book.contains(x) by {
        lemma_live_members(book, x);
        if book.contains(x) {
            let k = choose|k: int| 0 <= k < book.len() && book[k] == x;
        }
    }
    lemma_strict_same_members(quote, live(book), book);
}

/// Applying a diff without deletions a second time changes nothing more.
pub proof fn lemma_update_idempotent(quote: bool, count: int, book: Seq<Order>, diff: Seq<Order>)
    requires
        is_valid_book(quote, count, book),
        is_strictly_side_sorted(quote, diff),
        has_no_empty(diff),
    ensures
        updated(quote, count, updated(quote, count, book, diff), diff) == updated(quote, count, book, diff),
{
    let l1 = live(merged(quote, book, diff));
    let b1 = kept(l1, count);
    let l2 = live(merged(quote, b1, diff));
    lemma_merged_sorted(quote, book, diff);
    lemma_live_sorted(quote, merged(quote, book, diff));
    lemma_kept_prefix(quote, l1, count);
    lemma_merged_sorted(quote, b1, diff);
    lemma_live_sorted(quote, merged(quote, b1, diff));
    // Membership of the first and second results.
    assert forall|x: Order| l1.contains(x) <==> diff.contains(x) || (book.contains(x) && !has_price(diff, x.price_key())) by {
        lemma_live_members(merged(quote, book, diff), x);
        lemma_merged_members(quote, book, diff, x);
        if diff.contains(x) {
            let k = choose|k: int| 0 <= k < diff.len() && diff[k] == x;
        }
        if book.contains(x) {
            let k = choose|k: int| 0 <= k < book.len() && book[k] == x;
        }
    }
    assert forall|x: Order| l2.contains(x) <==> diff.contains(x) || (b1.contains(x) && !has_price(diff, x.price_key())) by {
        lemma_live_members(merged(quote, b1, diff), x);
        lemma_merged_members(quote, b1, diff, x);
        if diff.contains(x) {
            let k = choose|k: int| 0 <= k < diff.len() && diff[k] == x;
        }
        if b1.contains(x) {
            let k = choose|k: int| 0 <= k < b1.len() && b1[k] == x;
        }
    }
    assert forall|x: Order| b1.contains(x) implies l1.contains(x) by {
        let k = choose|k: int| 0 <= k < b1.len() && b1[k] == x;
        assert(l1[k] == b1[k]);
    }
    if l1.len() < count {
        assert(b1 == l1);
        lemma_strict_same_members(quote, l2, l1);
    } else {
        assert forall|x: Order| b1.contains(x) implies l2.contains(x) by {
            if !diff.contains(x) {
                assert(l1.contains(x));
                if has_price(diff, x.price_key()) {
                    assert(!book.contains(x) || has_price(diff, x.price_key()));
                }
            }
        }
        assert forall|x: Order, y: Order| l2.contains(x) && !b1.contains(x) && b1.contains(y) implies ranks_before(quote, y, x) by {
            assert(l1.contains(x));
            let i = choose|i: int| 0 <= i < l1.len() && l1[i] == x;
            let j = choose|j: int| 0 <= j < b1.len() && b1[j] == y;
            assert(l1[j] == b1[j]);
            if i < count {
                assert(b1[i] == l1[i]);
            }
        }
        lemma_strict_starts_with(quote, l2, b1);
        assert(kept(l2, count) == l2.take(b1.len() as int));
    }
}


/// The orders of a book at prices that a diff does not touch.
pub open spec fn without_prices(book: Seq<Order>, diff: Seq<Order>) -> Seq<Order> {
    book.filter(|o: Order| !has_price(diff, o.price_key()))
}

/// The orders that `f` selects, in order: those of `s` that satisfy it.
proof fn lemma_filter_members(s: Seq<Order>, f: spec_fn(Order) -> bool, x: Order)
    ensures
        s.filter(f).contains(x) <==> s.contains(x) && f(x),
    decreases s.len(),
{
    broadcast use Seq::lemma_filter_push;

    if s.len() == 0 {
        reveal(Seq::filter);
    } else {
        let t = s.drop_last();
        assert(t.push(s.last()) =~= s);
        lemma_filter_members(t, f, x);
        if s.contains(x) && !t.contains(x) {
            let k = choose|k: int| 0 <= k < s.len() && s[k] == x;
            if k < s.len() - 1 {
                assert(t[k] == x);
            }
        }
        if t.contains(x) {
            let k = choose|k: int| 0 <= k < t.len() && t[k] == x;
            assert(s[k] == x);
        }
        assert(s[s.len() - 1] == s.last());
    }
}

/// Selecting orders keeps a sequence strictly sorted and never lengthens it.
proof fn lemma_filter_strict(quote: bool, s: Seq<Order>, f: spec_fn(Order) -> bool)
    requires
        is_strictly_side_sorted(quote, s),
    ensures
        is_strictly_side_sorted(quote, s.filter(f)),
        s.filter(f).len() <= s.len(),
    decreases s.len(),
{
    broadcast use Seq::lemma_filter_push;

    if s.len() == 0 {
        reveal(Seq::filter);
    } else {
        let t = s.drop_last();
        let x = s.last();
        assert(t.push(x) =~= s);
        assert(is_strictly_side_sorted(quote, t)) by {
            assert forall|i: int, j: int| 0 <= i < j < t.len() implies ranks_before(quote, #[trigger] t[i], #[trigger] t[j]) by {
                assert(t[i] == s[i] && t[j] == s[j]);
            }
        }
        lemma_filter_strict(quote, t, f);
        let ft = t.filter(f);
        if f(x) {
            let l = s.filter(f);
            assert(l == ft.push(x));
            assert forall|i: int, j: int| 0 <= i < j < l.len() implies ranks_before(quote, #[trigger] l[i], #[trigger] l[j]) by {
                assert(l[i] == ft[i]);
                lemma_filter_members(t, f, ft[i]);
                assert(ft.contains(ft[i]));
                let k = choose|k: int| 0 <= k < t.len() && t[k] == ft[i];
                assert(s[k] == t[k]);
                if j < ft.len() {
                    assert(l[j] == ft[j]);
                } else {
                    assert(ranks_before(quote, s[k], s[s.len() - 1]));
                }
            }
        }
    }
}

/// When every price of a diff is already in the book, the merge has the book's length.
proof fn lemma_merged_len_known_prices(quote: bool, book: Seq<Order>, diff: Seq<Order>)
    requires
        is_strictly_side_sorted(quote, book),
        is_strictly_side_sorted(quote, diff),
        forall|j: int| 0 <= j < diff.len() ==> has_price(book, (#[trigger] diff[j]).price_key()),
    ensures
        merged(quote, book, diff).len() == book.len(),
    decreases book.len() + diff.len(),
{
    if book.len() == 0 {
        if diff.len() > 0 {
            assert(has_price(book, diff[0].price_key()));
        }
    } else if diff.len() == 0 {
    } else {
        lemma_drop_first_strict(quote, book);
        lemma_drop_first_strict(quote, diff);
        let b1 = book.drop_first();
        let d1 = diff.drop_first();
        assert(has_price(book, diff[0].price_key()));
        let k0 = choose|k: int| 0 <= k < book.len() && (#[trigger] book[k]).price_key() == diff[0].price_key();
        if k0 > 0 {
            assert(ranks_before(quote, book[0], book[k0]));
        }
        if ranks_before(quote, book[0], diff[0]) {
            assert forall|j: int| 0 <= j < diff.len() implies has_price(b1, (#[trigger] diff[j]).price_key()) by {
                assert(has_price(book, diff[j].price_key()));
                lemma_has_price_drop_first(book, diff[j].price_key());
                if j > 0 {
                    assert(ranks_before(quote, diff[0], diff[j]));
                }
            }
            lemma_merged_len_known_prices(quote, b1, diff);
        } else {
            assert forall|j: int| 0 <= j < d1.len() implies has_price(b1, (#[trigger] d1[j]).price_key()) by {
                assert(d1[j] == diff[j + 1]);
                assert(has_price(book, diff[j + 1].price_key()));
                lemma_has_price_drop_first(book, diff[j + 1].price_key());
                assert(ranks_before(quote, diff[0], diff[j + 1]));
            }
            lemma_merged_len_known_prices(quote, b1, d1);
        }
    }
}

/// Deleting again every level a diff set restores the book without those
/// levels, when the diff only touched levels the book had.
pub proof fn lemma_update_cancel(
    quote: bool,
    count: int,
    book: Seq<Order>,
    diff: Seq<Order>,
    undo: Seq<Order>,
)
    requires
        is_valid_book(quote, count, book),
        is_strictly_side_sorted(quote, diff),
        forall|j: int| 0 <= j < diff.len() ==> has_price(book, (#[trigger] diff[j]).price_key()),
        undo.len() == diff.len(),
        forall|j: int|
            0 <= j < undo.len() ==> (#[trigger] undo[j]).price_key() == diff[j].price_key()
                && undo[j].spec_is_empty(),
    ensures
        updated(quote, count, updated(quote, count, book, diff), undo) == without_prices(book, diff),
{
    lemma_merged_len_known_prices(quote, book, diff);
    lemma_merged_sorted(quote, book, diff);
    lemma_filter_strict(quote, merged(quote, book, diff), |o: Order| !o.spec_is_empty());
    lemma_update_cancel_uncapped(quote, count, book, diff, undo);
}

/// Deleting again every level a diff set restores the book without those
/// levels, when the cap dropped nothing the first time: the diff may bring new
/// prices.
pub proof fn lemma_update_cancel_uncapped(
    quote: bool,
    count: int,
    book: Seq<Order>,
    diff: Seq<Order>,
    undo: Seq<Order>,
)
    requires
        is_valid_book(quote, count, book),
        is_strictly_side_sorted(quote, diff),
        live(merged(quote, book, diff)).len() <= count,
        undo.len() == diff.len(),
        forall|j: int|
            0 <= j < undo.len() ==> (#[trigger] undo[j]).price_key() == diff[j].price_key()
                && undo[j].spec_is_empty(),
    ensures
        updated(quote, count, updated(quote, count, book, diff), undo) == without_prices(book, diff),
{
    let l1 = live(merged(quote, book, diff));
    lemma_merged_sorted(quote, book, diff);
    lemma_live_sorted(quote, merged(quote, book, diff));
    assert(kept(l1, count) == l1);
    assert(is_strictly_side_sorted(quote, undo)) by {
        assert forall|i: int, j: int| 0 <= i < j < undo.len() implies ranks_before(quote, #[trigger] undo[i], #[trigger] undo[j]) by {
            assert(ranks_before(quote, diff[i], diff[j]));
        }
    }
    assert forall|p: u64| has_price(undo, p) <==> has_price(diff, p) by {
        if has_price(undo, p) {
            let j = choose|j: int| 0 <= j < undo.len() && (#[trigger] undo[j]).price_key() == p;
            assert(diff[j].price_key() == p);
        }
        if has_price(diff, p) {
            let j = choose|j: int| 0 <= j < diff.len() && (#[trigger] diff[j]).price_key() == p;
            assert(undo[j].price_key() == p);
        }
    }
    let l2 = live(merged(quote, l1, undo));
    lemma_merged_sorted(quote, l1, undo);
    lemma_live_sorted(quote, merged(quote, l1, undo));
    let f = |o: Order| !has_price(diff, o.price_key());
    let target = book.filter(f);
    lemma_filter_strict(quote, book, f);
    assert forall|x: Order| l2.contains(x) <==> target.contains(x) by {
        lemma_live_members(merged(quote, l1, undo), x);
        lemma_merged_members(quote, l1, undo, x);
        lemma_live_members(merged(quote, book, diff), x);
        lemma_merged_members(quote, book, diff, x);
        lemma_filter_members(book, f, x);
        if undo.contains(x) {
            let j = choose|j: int| 0 <= j < undo.len() && undo[j] == x;
        }
        if diff.contains(x) {
            let j = choose|j: int| 0 <= j < diff.len() && diff[j] == x;
        }
        if book.contains(x) {
            let j = choose|j: int| 0 <= j < book.len() && book[j] == x;
        }
    }
    lemma_strict_same_members(quote, l2, target);
    assert(kept(l2, count) == l2);
}


/// A merge is never longer than its two inputs together.
proof fn lemma_merged_len_bound(quote: bool, book: Seq<Order>, diff: Seq<Order>)
    ensures
        merged(quote, book, diff).len() <= book.len() + diff.len(),
    decreases book.len() + diff.len(),
{
    if book.len() > 0 && diff.len() > 0 {
        if ranks_before(quote, book[0], diff[0]) {
            lemma_merged_len_bound(quote, book.drop_first(), diff);
        } else if ranks_before(quote, diff[0], book[0]) {
            lemma_merged_len_bound(quote, book, diff.drop_first());
        } else {
            lemma_merged_len_bound(quote, book.drop_first(), diff.drop_first());
        }
    }
}

/// The latest diff wins: when the cap drops nothing, a non-empty order of the
/// diff is in the updated book, and is the only level at its price.
pub proof fn lemma_update_latest_wins(quote: bool, count: int, book: Seq<Order>, diff: Seq<Order>, x: Order)
    requires
        is_valid_book(quote, count, book),
        is_strictly_side_sorted(quote, diff),
        diff.contains(x),
        !x.spec_is_empty(),
        live(merged(quote, book, diff)).len() <= count,
    ensures
        updated(quote, count, book, diff).contains(x),
        forall|y: Order|
            updated(quote, count, book, diff).contains(y) && y.price_key() == x.price_key() ==> y == x,
{
    let l1 = live(merged(quote, book, diff));
    assert(kept(l1, count) == l1);
    lemma_live_members(merged(quote, book, diff), x);
    lemma_merged_members(quote, book, diff, x);
    let i = choose|i: int| 0 <= i < diff.len() && diff[i] == x;
    assert forall|y: Order| l1.contains(y) && y.price_key() == x.price_key() implies y == x by {
        lemma_live_members(merged(quote, book, diff), y);
        lemma_merged_members(quote, book, diff, y);
        if diff.contains(y) {
            let j = choose|j: int| 0 <= j < diff.len() && diff[j] == y;
            if i < j {
                assert(ranks_before(quote, diff[i], diff[j]));
            } else if j < i {
                assert(ranks_before(quote, diff[j], diff[i]));
            }
        } else {
            assert(diff[i].price_key() == y.price_key());
            assert(has_price(diff, y.price_key()));
        }
    }
}

/// Updates do not commute: two single-order diffs at one price with different
/// orders give different books in the two orders of application, when the book
/// has room for one more level.
pub proof fn lemma_update_order_matters(
    quote: bool,
    count: int,
    book: Seq<Order>,
    x1: Order,
    x2: Order,
)
    requires
        is_valid_book(quote, count, book),
        book.len() < count,
        x1.price_key() == x2.price_key(),
        x1 != x2,
        !x1.spec_is_empty(),
        !x2.spec_is_empty(),
    ensures
        updated(quote, count, updated(quote, count, book, seq![x1]), seq![x2]) != updated(
            quote,
            count,
            updated(quote, count, book, seq![x2]),
            seq![x1],
        ),
{
    lemma_then_latest(quote, count, book, x1, x2);
    lemma_then_latest(quote, count, book, x2, x1);
    let a = updated(quote, count, updated(quote, count, book, seq![x1]), seq![x2]);
    let b = updated(quote, count, updated(quote, count, book, seq![x2]), seq![x1]);
    if a == b {
        assert(b.contains(x2));
    }
}

/// After the diffs `[first]` then `[second]`, at one price, the book holds
/// `second` and nothing else at that price.
proof fn lemma_then_latest(quote: bool, count: int, book: Seq<Order>, first: Order, second: Order)
    requires
        is_valid_book(quote, count, book),
        book.len() < count,
        first.price_key() == second.price_key(),
        !first.spec_is_empty(),
        !second.spec_is_empty(),
    ensures
        updated(quote, count, updated(quote, count, book, seq![first]), seq![second]).contains(second),
        forall|y: Order|
            updated(quote, count, updated(quote, count, book, seq![first]), seq![second]).contains(y)
                && y.price_key() == second.price_key() ==> y == second,
{
    let d1 = seq![first];
    let d2 = seq![second];
    assert(d1[0] == first);
    assert(d1.contains(first));
    assert(d2[0] == second);
    assert(d2.contains(second));
    let m1 = merged(quote, book, d1);
    lemma_merged_len_bound(quote, book, d1);
    lemma_merged_sorted(quote, book, d1);
    lemma_filter_strict(quote, m1, |o: Order| !o.spec_is_empty());
    lemma_live_sorted(quote, m1);
    lemma_kept_prefix(quote, live(m1), count);
    lemma_update_latest_wins(quote, count, book, d1, first);
    let b1 = updated(quote, count, book, d1);
    assert(has_price(b1, second.price_key())) by {
        let k = choose|k: int| 0 <= k < b1.len() && b1[k] == first;
    }
    lemma_merged_len_known_prices(quote, b1, d2);
    lemma_merged_sorted(quote, b1, d2);
    lemma_filter_strict(quote, merged(quote, b1, d2), |o: Order| !o.spec_is_empty());
    lemma_update_latest_wins(quote, count, b1, d2, second);
}


/// A new level that beats every level of the book goes first, and the cap then
/// drops the book's last level when the book was full.
pub proof fn lemma_update_new_best(quote: bool, count: int, book: Seq<Order>, x: Order)
    requires
        is_valid_book(quote, count, book),
        !x.spec_is_empty(),
        forall|i: int| 0 <= i < book.len() ==> ranks_before(quote, x, #[trigger] book[i]),
    ensures
        updated(quote, count, book, seq![x]) == kept(seq![x] + book, count),
{
    let d = seq![x];
    let s = seq![x] + book;
    assert(d[0] == x);
    if book.len() > 0 {
        assert(ranks_before(quote, x, book[0]));
        assert(d.drop_first() =~= Seq::<Order>::empty());
        assert(merged(quote, book, d.drop_first()) == book);
        assert(merged(quote, book, d) =~= s);
    } else {
        assert(merged(quote, book, d) =~= s);
    }
    assert(is_strictly_side_sorted(quote, s)) by {
        assert forall|i: int, j: int| 0 <= i < j < s.len() implies ranks_before(quote, #[trigger] s[i], #[trigger] s[j]) by {
            assert(s[j] == book[j - 1]);
            if i > 0 {
                assert(s[i] == book[i - 1]);
            }
        }
    }
    lemma_live_sorted(quote, s);
    assert forall|y: Order| live(s).contains(y) <==> s.contains(y) by {
        lemma_live_members(s, y);
        if s.contains(y) {
            let k = choose|k: int| 0 <= k < s.len() && s[k] == y;
            if k > 0 {
                assert(s[k] == book[k - 1]);
            }
        }
    }
    lemma_strict_same_members(quote, live(s), s);
}

} // verus!
