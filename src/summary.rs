//! The summary book: every exchange's bid and ask books, merged on request into
//! one top-N view per side.

use vstd::prelude::*;
use vstd::multiset::group_multiset_axioms;
use vstd::seq_lib::group_to_multiset_ensures;
use crate::book::{
    better, is_strictly_side_sorted, price_ranks_before, is_valid_book, kept, ranks_before, OrderBookAsks,
    OrderBookBids, ASK, BEST_ORDER_BOOK_SIZE, BID,
};
use crate::primitives::{Exchange, Order, Price, SummaryOrder};

verus! {

/// Quote `a` ranks strictly before quote `b`: a better price on the side, or the
/// same price with a larger amount, or the same price and amount from an earlier
/// exchange.
pub open spec fn summary_before(quote: bool, a: SummaryOrder, b: SummaryOrder) -> bool {
    better(quote, a.1.price_key(), b.1.price_key()) || (a.1.price_key() == b.1.price_key() && (
    a.1.amount_key() > b.1.amount_key() || (a.1.amount_key() == b.1.amount_key()
        && a.0.spec_ordinal() < b.0.spec_ordinal())))
}

/// No quote is followed by one that ranks strictly before it.
pub open spec fn is_summary_sorted(quote: bool, s: Seq<SummaryOrder>) -> bool {
    forall|i: int| 0 <= i && i + 1 < s.len() ==> !summary_before(quote, #[trigger] s[i + 1], s[i])
}

/// The orders of one exchange's book, each tagged with the exchange.
pub open spec fn tagged(exchange: Exchange, orders: Seq<Order>) -> Seq<SummaryOrder> {
    orders.map_values(|o: Order| SummaryOrder(exchange, o))
}

/// `r` is the first `count` quotes of `all` arranged in the summary order: the
/// best quotes of `all`, best first.
pub open spec fn is_top_quotes(quote: bool, all: Seq<SummaryOrder>, r: Seq<SummaryOrder>, count: int) -> bool {
    exists|m: Seq<SummaryOrder>|
        #![trigger m.to_multiset()]
        m.to_multiset() == all.to_multiset() && is_summary_sorted(quote, m) && r == kept(m, count)
}

/// Whether quote `a` ranks strictly before quote `b` in the summary order.
pub fn summary_ranks_before(quote: bool, a: &SummaryOrder, b: &SummaryOrder) -> (r: bool)
    ensures
        r == summary_before(quote, *a, *b),
{
    let ap = a.1.price_bits();
    let bp = b.1.price_bits();
    if ap != bp {
        price_ranks_before(quote, ap, bp)
    } else {
        let aa = a.1.amount_bits();
        let ba = b.1.amount_bits();
        aa > ba || (aa == ba && a.0.ordinal() < b.0.ordinal())
    }
}

/// Relies on itertools::kmerge_by: it yields every element of every stream exactly
/// once, and when each stream is sorted by the predicate (here a strict order on
/// price, then amount, then exchange) the output is sorted by it.
#[verifier::external_body]
fn kmerge_quotes(streams: Vec<Vec<SummaryOrder>>, quote: bool) -> (r: Vec<SummaryOrder>)
    ensures
        r@.to_multiset() == streams@.map_values(|v: Vec<SummaryOrder>| v@).flatten().to_multiset(),
        (forall|k: int| 0 <= k < streams@.len() ==> is_summary_sorted(quote, #[trigger] streams@[k]@))
            ==> is_summary_sorted(quote, r@),
{
    itertools::kmerge_by(streams, |a: &SummaryOrder, b: &SummaryOrder| summary_ranks_before(quote, a, b)).collect()
}

/// How the best bid and the best ask stand: the spread is the best bid's price
/// minus the best ask's price when both exist.
#[derive(Clone, Copy, Debug, PartialEq, Eq)]
pub enum Spread {
    /// Neither bids nor asks: the spread is undefined (NaN).
    Undefined,
    /// Bids but no asks: the spread is +infinity.
    NoAsks,
    /// Asks but no bids: the spread is -infinity.
    NoBids,
    /// Both sides quote: the spread is `bid - ask`, negative when the market is crossed.
    Difference { bid: Price, ask: Price },
}

/// Each exchange's bid and ask books.
pub struct SummaryOrderBook {
    books: Vec<(Exchange, OrderBookBids, OrderBookAsks)>,
}

impl SummaryOrderBook {
    #[verifier::type_invariant]
    spec fn inv(self) -> bool {
        &&& self.books@.len() == 2
        &&& forall|k: int| 0 <= k < 2 ==> (#[trigger] self.books@[k]).0.spec_ordinal() == k
    }

    /// The stored bid levels of `exchange`.
    pub closed spec fn bids_of(&self, exchange: Exchange) -> Seq<Order> {
        self.books@[exchange.spec_ordinal()].1@
    }

    /// The stored ask levels of `exchange`.
    pub closed spec fn asks_of(&self, exchange: Exchange) -> Seq<Order> {
        self.books@[exchange.spec_ordinal()].2@
    }

    /// The stored levels of one side of `exchange`.
    pub open spec fn side_of(&self, quote: bool, exchange: Exchange) -> Seq<Order> {
        if quote {
            self.bids_of(exchange)
        } else {
            self.asks_of(exchange)
        }
    }

    /// Every stored quote of one side, exchange by exchange in their order.
    pub open spec fn all_quotes(&self, quote: bool) -> Seq<SummaryOrder> {
        tagged(Exchange::Binance, self.side_of(quote, Exchange::Binance)) + tagged(
            Exchange::Bitstamp,
            self.side_of(quote, Exchange::Bitstamp),
        )
    }

    /// Replaces the books of `exchange` alone.
    pub fn reset(&mut self, exchange: Exchange, bids: OrderBookBids, asks: OrderBookAsks)
        ensures
            final(self).bids_of(exchange) == bids@,
            final(self).asks_of(exchange) == asks@,
            forall|e: Exchange|
                e != exchange ==> final(self).bids_of(e) == old(self).bids_of(e)
                    && final(self).asks_of(e) == old(self).asks_of(e),
    {
        proof {
            use_type_invariant(&*self);
        }
        let books = match exchange {
            Exchange::Binance => vec![
                (Exchange::Binance, bids, asks),
                (Exchange::Bitstamp, self.books[1].1.clone(), self.books[1].2.clone()),
            ],
            Exchange::Bitstamp => vec![
                (Exchange::Binance, self.books[0].1.clone(), self.books[0].2.clone()),
                (Exchange::Bitstamp, bids, asks),
            ],
        };
        *self = SummaryOrderBook { books };
    }

    /// Up to `BEST_ORDER_BOOK_SIZE` best bids over all exchanges.
    pub fn bids(&self) -> (r: Vec<SummaryOrder>)
        ensures
            is_top_quotes(BID, self.all_quotes(BID), r@, BEST_ORDER_BOOK_SIZE as int),
            r@.len() <= BEST_ORDER_BOOK_SIZE,
            is_summary_sorted(BID, r@),
    {
        self.quotes(BID)
    }

    /// Up to `BEST_ORDER_BOOK_SIZE` best asks over all exchanges.
    pub fn asks(&self) -> (r: Vec<SummaryOrder>)
        ensures
            is_top_quotes(ASK, self.all_quotes(ASK), r@, BEST_ORDER_BOOK_SIZE as int),
            r@.len() <= BEST_ORDER_BOOK_SIZE,
            is_summary_sorted(ASK, r@),
    {
        self.quotes(ASK)
    }

    /// The k-way merge of one side of every exchange's books, cut to the depth.
    fn quotes(&self, quote: bool) -> (r: Vec<SummaryOrder>)
        ensures
            is_top_quotes(quote, self.all_quotes(quote), r@, BEST_ORDER_BOOK_SIZE as int),
            r@.len() <= BEST_ORDER_BOOK_SIZE,
            is_summary_sorted(quote, r@),
    {
        proof {
            use_type_invariant(self);
        }
        let mut streams: Vec<Vec<SummaryOrder>> = Vec::new();
        let mut k: usize = 0;
        while k < self.books.len()
            invariant
                self.books@.len() == 2,
                forall|j: int| 0 <= j < 2 ==> (#[trigger] self.books@[j]).0.spec_ordinal() == j,
                k <= 2,
                streams@.len() == k,
                forall|j: int|
                    0 <= j < k ==> (#[trigger] streams@[j])@ == tagged(
                        self.books@[j].0,
                        if quote {
                            self.books@[j].1@
                        } else {
                            self.books@[j].2@
                        },
                    ),
                forall|j: int| 0 <= j < k ==> is_summary_sorted(quote, (#[trigger] streams@[j])@),
            decreases 2 - k,
        {
            let entry = &self.books[k];
            let orders = if quote {
                entry.1.orders()
            } else {
                entry.2.orders()
            };
            let stream = tag_orders(entry.0, orders);
            proof {
                lemma_tagged_sorted(quote, entry.0, orders@);
            }
            streams.push(stream);
            k = k + 1;
        }
        let ghost all = self.all_quotes(quote);
        proof {
            let flat = streams@.map_values(|v: Vec<SummaryOrder>| v@);
            assert(self.books@[0].0 == Exchange::Binance);
            assert(self.books@[1].0 == Exchange::Bitstamp);
            assert(flat[0] == streams@[0]@);
            assert(flat[1] == streams@[1]@);
            assert(flat.len() == 2);
            assert(flat.drop_first().drop_first() =~= Seq::<Seq<SummaryOrder>>::empty());
            assert(flat.drop_first().drop_first().flatten() =~= Seq::<SummaryOrder>::empty());
            assert(flat.drop_first().first() == flat[1]);
            assert(flat.drop_first().flatten() =~= flat[1]);
            assert(flat.flatten() =~= all);
        }
        let merged = kmerge_quotes(streams, quote);
        let ghost m = merged@;
        let mut r = merged;
        r.truncate(BEST_ORDER_BOOK_SIZE);
        proof {
            assert(r@ =~= kept(m, BEST_ORDER_BOOK_SIZE as int));
            assert(is_summary_sorted(quote, r@)) by {
                assert forall|i: int| 0 <= i && i + 1 < r@.len() implies !summary_before(quote, #[trigger] r@[i + 1], r@[i]) by {
                    assert(r@[i] == m[i] && r@[i + 1] == m[i + 1]);
                }
            }
        }
        r
    }

    /// How the best of `bids` and the best of `asks` stand.
    pub fn spread(bids: &Vec<SummaryOrder>, asks: &Vec<SummaryOrder>) -> (r: Spread)
        ensures
            bids@.len() == 0 && asks@.len() == 0 <==> r == Spread::Undefined,
            bids@.len() > 0 && asks@.len() == 0 <==> r == Spread::NoAsks,
            bids@.len() == 0 && asks@.len() > 0 <==> r == Spread::NoBids,
            bids@.len() > 0 && asks@.len() > 0 <==> r is Difference,
            (match r {
                Spread::Difference { bid, ask } => bid@ == bids@[0].1.price_key() && ask@
                    == asks@[0].1.price_key(),
                _ => true,
            }),
    {
        if bids.len() == 0 && asks.len() == 0 {
            Spread::Undefined
        } else if asks.len() == 0 {
            Spread::NoAsks
        } else if bids.len() == 0 {
            Spread::NoBids
        } else {
            Spread::Difference { bid: bids[0].1.price(), ask: asks[0].1.price() }
        }
    }
}

impl Default for SummaryOrderBook {
    /// A summary whose every book is empty.
    fn default() -> (r: Self)
        ensures
            forall|e: Exchange| r.bids_of(e).len() == 0 && r.asks_of(e).len() == 0,
    {
        let books = vec![
            (Exchange::Binance, OrderBookBids::default(), OrderBookAsks::default()),
            (Exchange::Bitstamp, OrderBookBids::default(), OrderBookAsks::default()),
        ];
        SummaryOrderBook { books }
    }
}

/// Tags every order with `exchange`.
fn tag_orders(exchange: Exchange, orders: &Vec<Order>) -> (r: Vec<SummaryOrder>)
    ensures
        r@ == tagged(exchange, orders@),
{
    let mut r: Vec<SummaryOrder> = Vec::new();
    let mut i: usize = 0;
    while i < orders.len()
        invariant
            i <= orders@.len(),
            r@ =~= tagged(exchange, orders@.take(i as int)),
        decreases orders@.len() - i,
    {
        r.push(SummaryOrder(exchange, orders[i]));
        proof {
            assert(orders@.take(i + 1) =~= orders@.take(i as int).push(orders@[i as int]));
        }
        i = i + 1;
    }
    proof {
        assert(orders@.take(i as int) =~= orders@);
    }
    r
}

/// A strictly sorted book, tagged, is sorted in the summary order.
proof fn lemma_tagged_sorted(quote: bool, exchange: Exchange, orders: Seq<Order>)
    requires
        is_strictly_side_sorted(quote, orders),
    ensures
        is_summary_sorted(quote, tagged(exchange, orders)),
{
    let t = tagged(exchange, orders);
    assert forall|i: int| 0 <= i && i + 1 < t.len() implies !summary_before(quote, #[trigger] t[i + 1], t[i]) by {
        assert(ranks_before(quote, orders[i], orders[i + 1]));
    }
}


/// In a sequence sorted in the summary order no price ranks strictly before an
/// earlier one.
proof fn lemma_summary_sorted_prices(quote: bool, m: Seq<SummaryOrder>)
    requires
        is_summary_sorted(quote, m),
    ensures
        forall|i: int, j: int|
            0 <= i < j < m.len() ==> !better(quote, (#[trigger] m[j]).1.price_key(), (#[trigger] m[i]).1.price_key()),
    decreases m.len(),
{
    if m.len() > 1 {
        let t = m.drop_last();
        assert forall|i: int| 0 <= i && i + 1 < t.len() implies !summary_before(quote, #[trigger] t[i + 1], t[i]) by {
            assert(t[i] == m[i] && t[i + 1] == m[i + 1]);
        }
        lemma_summary_sorted_prices(quote, t);
        assert forall|i: int, j: int| 0 <= i < j < m.len() implies !better(quote, (#[trigger] m[j]).1.price_key(), (#[trigger] m[i]).1.price_key()) by {
            if j < m.len() - 1 {
                assert(t[i] == m[i] && t[j] == m[j]);
            } else if i < j - 1 {
                assert(t[i] == m[i] && t[j - 1] == m[j - 1]);
                let k = j - 1;
                assert(!summary_before(quote, m[k + 1], m[k]));
            } else {
                assert(!summary_before(quote, m[i + 1], m[i]));
            }
        }
    }
}

/// A sequence sorted in the summary order that holds the same quotes as one
/// whose prices strictly rank is that sequence.
proof fn lemma_summary_order_unique(quote: bool, m: Seq<SummaryOrder>, a: Seq<SummaryOrder>)
    requires
        is_summary_sorted(quote, m),
        forall|i: int, j: int|
            0 <= i < j < a.len() ==> better(quote, (#[trigger] a[i]).1.price_key(), (#[trigger] a[j]).1.price_key()),
        m.to_multiset() == a.to_multiset(),
    ensures
        m == a,
    decreases a.len(),
{
    broadcast use group_to_multiset_ensures;
    broadcast use group_multiset_axioms;

    assert(m.len() == m.to_multiset().len());
    assert(a.len() == a.to_multiset().len());
    if a.len() == 0 {
        assert(m =~= a);
    } else {
        lemma_summary_sorted_prices(quote, m);
        assert(m.to_multiset().count(m[0]) > 0);
        assert(a.contains(m[0]));
        let i = choose|i: int| 0 <= i < a.len() && a[i] == m[0];
        assert(a.to_multiset().count(a[0]) > 0);
        assert(m.contains(a[0]));
        let j = choose|j: int| 0 <= j < m.len() && m[j] == a[0];
        if i > 0 {
            assert(better(quote, a[0].1.price_key(), a[i].1.price_key()));
            if j > 0 {
                assert(!better(quote, m[j].1.price_key(), m[0].1.price_key()));
            }
        }
        assert(m[0] == a[0]);
        let m1 = m.drop_first();
        let a1 = a.drop_first();
        assert(m.remove(0) =~= m1);
        assert(a.remove(0) =~= a1);
        assert(m1.to_multiset() =~= a1.to_multiset());
        assert forall|k: int| 0 <= k && k + 1 < m1.len() implies !summary_before(quote, #[trigger] m1[k + 1], m1[k]) by {
            assert(m1[k] == m[k + 1] && m1[k + 1] == m[k + 2]);
        }
        assert forall|k: int, l: int| 0 <= k < l < a1.len() implies better(quote, (#[trigger] a1[k]).1.price_key(), (#[trigger] a1[l]).1.price_key()) by {
            assert(a1[k] == a[k + 1] && a1[l] == a[l + 1]);
        }
        lemma_summary_order_unique(quote, m1, a1);
        assert(m =~= seq![m[0]] + m1);
        assert(a =~= seq![a[0]] + a1);
    }
}

impl SummaryOrderBook {
    /// When every stored book of a side is empty, that side's best quotes are none.
    pub proof fn lemma_all_empty(&self, quote: bool, r: Seq<SummaryOrder>)
        requires
            forall|e: Exchange| #[trigger] self.side_of(quote, e).len() == 0,
            is_top_quotes(quote, self.all_quotes(quote), r, BEST_ORDER_BOOK_SIZE as int),
        ensures
            r.len() == 0,
    {
        broadcast use group_to_multiset_ensures;

        assert(self.side_of(quote, Exchange::Binance).len() == 0);
        assert(self.side_of(quote, Exchange::Bitstamp).len() == 0);
        assert(self.all_quotes(quote).len() == 0);
        let m = choose|m: Seq<SummaryOrder>|
            #![trigger m.to_multiset()]
            m.to_multiset() == self.all_quotes(quote).to_multiset() && is_summary_sorted(quote, m) && r
                == kept(m, BEST_ORDER_BOOK_SIZE as int);
        assert(m.len() == m.to_multiset().len());
        assert(self.all_quotes(quote).len() == self.all_quotes(quote).to_multiset().len());
    }

    /// When only `exchange` quotes on a side, that side's best quotes are its
    /// stored book, tagged with the exchange.
    pub proof fn lemma_single_exchange(&self, quote: bool, exchange: Exchange, r: Seq<SummaryOrder>)
        requires
            forall|e: Exchange| e != exchange ==> #[trigger] self.side_of(quote, e).len() == 0,
            is_valid_book(quote, BEST_ORDER_BOOK_SIZE as int, self.side_of(quote, exchange)),
            is_top_quotes(quote, self.all_quotes(quote), r, BEST_ORDER_BOOK_SIZE as int),
        ensures
            r == tagged(exchange, self.side_of(quote, exchange)),
    {
        let s = self.side_of(quote, exchange);
        let a = tagged(exchange, s);
        let b0 = self.side_of(quote, Exchange::Binance);
        let b1 = self.side_of(quote, Exchange::Bitstamp);
        match exchange {
            Exchange::Binance => {
                assert(b1.len() == 0);
                assert(tagged(Exchange::Bitstamp, b1) =~= Seq::<SummaryOrder>::empty());
                assert(self.all_quotes(quote) =~= a);
            },
            Exchange::Bitstamp => {
                assert(b0.len() == 0);
                assert(tagged(Exchange::Binance, b0) =~= Seq::<SummaryOrder>::empty());
                assert(self.all_quotes(quote) =~= a);
            },
        }
        let m = choose|m: Seq<SummaryOrder>|
            #![trigger m.to_multiset()]
            m.to_multiset() == self.all_quotes(quote).to_multiset() && is_summary_sorted(quote, m) && r
                == kept(m, BEST_ORDER_BOOK_SIZE as int);
        assert forall|i: int, j: int| 0 <= i < j < a.len() implies better(quote, (#[trigger] a[i]).1.price_key(), (#[trigger] a[j]).1.price_key()) by {
            assert(ranks_before(quote, s[i], s[j]));
        }
        lemma_summary_order_unique(quote, m, a);
        assert(kept(a, BEST_ORDER_BOOK_SIZE as int) =~= a);
    }
}


/// The summary order ranks any two distinct quotes one way or the other.
proof fn lemma_summary_total(quote: bool, a: SummaryOrder, b: SummaryOrder)
    requires
        a != b,
    ensures
        summary_before(quote, a, b) || summary_before(quote, b, a),
{
    if a.1.price_key() == b.1.price_key() && a.1.amount_key() == b.1.amount_key() && a.0 == b.0 {
        a.1.lemma_ext(b.1);
    }
}

/// In a sequence sorted in the summary order every quote ranks before each later
/// one, or equals it.
proof fn lemma_summary_sorted_all_pairs(quote: bool, m: Seq<SummaryOrder>)
    requires
        is_summary_sorted(quote, m),
    ensures
        forall|i: int, j: int| 0 <= i < j < m.len() ==> !summary_before(quote, #[trigger] m[j], #[trigger] m[i]),
    decreases m.len(),
{
    if m.len() > 1 {
        let t = m.drop_last();
        assert forall|i: int| 0 <= i && i + 1 < t.len() implies !summary_before(quote, #[trigger] t[i + 1], t[i]) by {
            assert(t[i] == m[i] && t[i + 1] == m[i + 1]);
        }
        lemma_summary_sorted_all_pairs(quote, t);
        assert forall|i: int, j: int| 0 <= i < j < m.len() implies !summary_before(quote, #[trigger] m[j], #[trigger] m[i]) by {
            if j < m.len() - 1 {
                assert(t[i] == m[i] && t[j] == m[j]);
            } else if i < j - 1 {
                assert(t[i] == m[i] && t[j - 1] == m[j - 1]);
                let k = j - 1;
                assert(!summary_before(quote, m[k + 1], m[k]));
                if summary_before(quote, m[j], m[i]) {
                    if m[k] != m[i] {
                        lemma_summary_total(quote, m[k], m[i]);
                    }
                    if m[j] != m[k] {
                        lemma_summary_total(quote, m[j], m[k]);
                    }
                }
            } else {
                assert(!summary_before(quote, m[i + 1], m[i]));
            }
        }
    }
}

/// Two arrangements in the summary order of the same quotes are equal.
proof fn lemma_summary_arrangement_unique(quote: bool, x: Seq<SummaryOrder>, y: Seq<SummaryOrder>)
    requires
        is_summary_sorted(quote, x),
        is_summary_sorted(quote, y),
        x.to_multiset() == y.to_multiset(),
    ensures
        x == y,
    decreases x.len(),
{
    broadcast use group_to_multiset_ensures;
    broadcast use group_multiset_axioms;

    assert(x.len() == x.to_multiset().len());
    assert(y.len() == y.to_multiset().len());
    if x.len() == 0 {
        assert(x =~= y);
    } else {
        lemma_summary_sorted_all_pairs(quote, x);
        lemma_summary_sorted_all_pairs(quote, y);
        assert(x.to_multiset().count(x[0]) > 0);
        assert(y.contains(x[0]));
        let i = choose|i: int| 0 <= i < y.len() && y[i] == x[0];
        assert(y.to_multiset().count(y[0]) > 0);
        assert(x.contains(y[0]));
        let j = choose|j: int| 0 <= j < x.len() && x[j] == y[0];
        if x[0] != y[0] {
            lemma_summary_total(quote, x[0], y[0]);
            if i > 0 {
                assert(!summary_before(quote, y[i], y[0]));
            }
            if j > 0 {
                assert(!summary_before(quote, x[j], x[0]));
            }
        }
        assert(x[0] == y[0]);
        let x1 = x.drop_first();
        let y1 = y.drop_first();
        assert(x.remove(0) =~= x1);
        assert(y.remove(0) =~= y1);
        assert(x1.to_multiset() =~= y1.to_multiset());
        assert forall|k: int| 0 <= k && k + 1 < x1.len() implies !summary_before(quote, #[trigger] x1[k + 1], x1[k]) by {
            assert(x1[k] == x[k + 1] && x1[k + 1] == x[k + 2]);
        }
        assert forall|k: int| 0 <= k && k + 1 < y1.len() implies !summary_before(quote, #[trigger] y1[k + 1], y1[k]) by {
            assert(y1[k] == y[k + 1] && y1[k + 1] == y[k + 2]);
        }
        lemma_summary_arrangement_unique(quote, x1, y1);
        assert(x =~= seq![x[0]] + x1);
        assert(y =~= seq![y[0]] + y1);
    }
}

/// The best quotes of a collection are determined: the summary order leaves
/// nothing open, ties of price and amount included.
pub proof fn lemma_top_quotes_unique(
    quote: bool,
    all: Seq<SummaryOrder>,
    r1: Seq<SummaryOrder>,
    r2: Seq<SummaryOrder>,
    count: int,
)
    requires
        is_top_quotes(quote, all, r1, count),
        is_top_quotes(quote, all, r2, count),
    ensures
        r1 == r2,
{
    let m1 = choose|m: Seq<SummaryOrder>|
        #![trigger m.to_multiset()]
        m.to_multiset() == all.to_multiset() && is_summary_sorted(quote, m) && r1 == kept(m, count);
    let m2 = choose|m: Seq<SummaryOrder>|
        #![trigger m.to_multiset()]
        m.to_multiset() == all.to_multiset() && is_summary_sorted(quote, m) && r2 == kept(m, count);
    lemma_summary_arrangement_unique(quote, m1, m2);
}

} // verus!
