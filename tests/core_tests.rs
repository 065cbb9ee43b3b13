use itertools::Itertools;
use order_book::{
    Amount, Exchange, Order, OrderBook, OrderBookAsks, OrderBookBids, OrderBookDiff,
    OrderBookDiffAsks, OrderBookDiffBids, OrderBookError, Price, Spread, SummaryOrder,
    SummaryOrderBook,
};

fn price(value: f64) -> Result<Price, f64> {
    Price::new(value.to_bits()).map_err(f64::from_bits)
}

fn amount(value: f64) -> Result<Amount, f64> {
    Amount::new(value.to_bits()).map_err(f64::from_bits)
}

fn o(price_value: f64, amount_value: f64) -> Order {
    Order::new(price(price_value).unwrap(), amount(amount_value).unwrap())
}

fn book_of<const QUOTE: bool>(orders: Vec<Order>) -> OrderBook<QUOTE, 10> {
    OrderBook::new_sorted(orders).unwrap()
}

fn spread_value(spread: Spread) -> f64 {
    match spread {
        Spread::Undefined => f64::NAN,
        Spread::NoAsks => f64::INFINITY,
        Spread::NoBids => f64::NEG_INFINITY,
        Spread::Difference { bid, ask } => {
            f64::from_bits(bid.into_inner()) - f64::from_bits(ask.into_inner())
        }
    }
}

#[test]
fn invalid_price() {
    assert!(price(f64::NAN).is_err_and(|v| v.is_nan()));
    assert!(price(0.0).err() == Some(0.0));
    assert!(price(-0.1).err() == Some(-0.1));
    assert!(price(f64::INFINITY).err() == Some(f64::INFINITY));
    assert!(price(f64::NEG_INFINITY).err() == Some(f64::NEG_INFINITY));
}

#[test]
fn valid_price() {
    assert!(price(0.1).is_ok_and(|v| f64::from_bits(v.into_inner()) == 0.1));
}

#[test]
fn compare_price() {
    assert_eq!(price(0.1), price(0.1));
    assert_eq!(price(0.2), price(0.2));
    assert_ne!(price(0.2), price(0.3));
    assert_ne!(price(0.3), price(0.2));
    assert!(price(0.1) < price(0.2));
    assert!(price(0.2) > price(0.1));
    assert!(price(0.2) < price(0.3));
    assert!(price(0.3) > price(0.2));
}

#[test]
fn invalid_amount() {
    assert!(amount(f64::NAN).is_err_and(|v| v.is_nan()));
    assert!(amount(-0.1).err() == Some(-0.1));
    assert!(amount(f64::INFINITY).err() == Some(f64::INFINITY));
    assert!(amount(f64::NEG_INFINITY).err() == Some(f64::NEG_INFINITY));
}

#[test]
fn valid_amount() {
    assert_eq!(f64::from_bits(Amount::default().into_inner()), 0.0);
    assert!(amount(0.0).is_ok_and(|v| f64::from_bits(v.into_inner()) == 0.0));
    assert!(amount(0.1).is_ok_and(|v| f64::from_bits(v.into_inner()) == 0.1));
}

#[test]
fn compare_amount() {
    assert_eq!(amount(0.0), amount(0.0));
    assert_eq!(amount(0.1), amount(0.1));
    assert_ne!(amount(0.2), amount(0.3));
    assert_ne!(amount(0.3), amount(0.2));
    assert!(amount(0.1) < amount(0.2));
    assert!(amount(0.2) > amount(0.1));
    assert!(amount(0.2) < amount(0.3));
    assert!(amount(0.3) > amount(0.2));
}

#[test]
fn invalid_order_book_diff_asks() {
    {
        let orders = vec![
            o(0.2, 0.1),
            o(0.2, 0.2),
        ];
        assert!(OrderBookDiffAsks::new(orders)
            .err() == Some(OrderBookError::HasOrderWithNotUniquePrice));
        let orders = vec![
            o(0.3, 0.1),
            o(0.2, 0.2),
        ];
        assert!(OrderBookDiffAsks::new_sorted(orders)
            .err() == Some(OrderBookError::OrdersNotSortedAccordingToQuoteType));
    }
}

#[test]
fn invalid_order_book_asks() {
    {
        let orders = vec![o(0.2, 0.0)];
        assert!(OrderBookAsks::new(orders).err() == Some(OrderBookError::HasOrderWithEmptyAmount));
        let orders = vec![
            o(0.2, 0.1),
            o(0.2, 0.2),
        ];
        assert!(
            OrderBookAsks::new(orders).err() == Some(OrderBookError::HasOrderWithNotUniquePrice)
        );
        let orders = vec![
            o(0.3, 0.1),
            o(0.2, 0.2),
        ];
        assert!(OrderBookAsks::new_sorted(orders)
            .err() == Some(OrderBookError::OrdersNotSortedAccordingToQuoteType));
    }
}

#[test]
fn valid_order_book_diff_asks() {
    assert!(OrderBookDiffAsks::default().orders().is_empty());
    assert!(OrderBookDiffAsks::new(vec![]).is_ok_and(|asks| asks.orders().is_empty()));
    {
        let orders = vec![o(0.2, 0.1)];
        assert!(OrderBookDiffAsks::new(orders.clone()).is_ok_and(|asks| asks.orders() == &orders));

        let orders = vec![
            o(0.2, 0.1),
            o(0.1, 0.0),
            o(0.3, 0.2),
            o(0.25, 0.3),
        ];
        let mut expected = orders.clone();
        expected.sort_by_key(|o| o.price());
        assert!(OrderBookDiffAsks::new(orders).is_ok_and(|asks| asks.orders() == &expected));
    }
}

#[test]
fn valid_order_book_asks() {
    assert!(OrderBookAsks::default().orders().is_empty());
    assert!(OrderBookAsks::new(vec![]).is_ok_and(|asks| asks.orders().is_empty()));
    {
        let orders = vec![o(0.2, 0.1)];
        assert!(OrderBookAsks::new(orders.clone()).is_ok_and(|asks| asks.orders() == &orders));

        let orders = vec![
            o(0.2, 0.1),
            o(0.1, 0.2),
            o(0.3, 0.2),
            o(0.25, 0.2),
        ];
        let mut expected = orders.clone();
        expected.sort_by_key(|o| o.price());
        assert!(OrderBookAsks::new(orders).is_ok_and(|asks| asks.orders() == &expected));
    }
}

#[test]
fn invalid_order_book_diff_bids() {
    {
        let orders = vec![
            o(0.2, 0.1),
            o(0.2, 0.2),
        ];
        assert!(OrderBookDiffBids::new(orders)
            .err() == Some(OrderBookError::HasOrderWithNotUniquePrice));
        let orders = vec![
            o(0.2, 0.1),
            o(0.3, 0.2),
        ];
        assert!(OrderBookDiffBids::new_sorted(orders)
            .err() == Some(OrderBookError::OrdersNotSortedAccordingToQuoteType));
    }
}

#[test]
fn invalid_order_book_bids() {
    {
        let orders = vec![o(0.2, 0.0)];
        assert!(OrderBookBids::new(orders).err() == Some(OrderBookError::HasOrderWithEmptyAmount));
        let orders = vec![
            o(0.2, 0.1),
            o(0.2, 0.2),
        ];
        assert!(
            OrderBookBids::new(orders).err() == Some(OrderBookError::HasOrderWithNotUniquePrice)
        );
        let orders = vec![
            o(0.2, 0.1),
            o(0.3, 0.2),
        ];
        assert!(OrderBookBids::new_sorted(orders)
            .err() == Some(OrderBookError::OrdersNotSortedAccordingToQuoteType));
    }
}

#[test]
fn valid_order_book_diff_bids() {
    assert!(OrderBookDiffBids::default().orders().is_empty());
    assert!(OrderBookDiffBids::new(vec![]).is_ok_and(|bids| bids.orders().is_empty()));
    {
        let orders = vec![o(0.2, 0.1)];
        assert!(OrderBookDiffBids::new(orders.clone()).is_ok_and(|bids| bids.orders() == &orders));

        let orders = vec![
            o(0.25, 0.3),
            o(0.3, 0.2),
            o(0.1, 0.0),
            o(0.2, 0.1),
        ];
        let mut expected = orders.clone();
        expected.sort_by(|l, r| r.price().cmp(&l.price()));
        assert!(OrderBookDiffBids::new(orders).is_ok_and(|bids| bids.orders() == &expected));
    }
}

#[test]
fn valid_order_book_bids() {
    assert!(OrderBookBids::default().orders().is_empty());
    assert!(OrderBookBids::new(vec![]).is_ok_and(|bids| bids.orders().is_empty()));
    {
        let orders = vec![o(0.2, 0.1)];
        assert!(OrderBookBids::new(orders.clone()).is_ok_and(|bids| bids.orders() == &orders));

        let orders = vec![
            o(0.25, 0.2),
            o(0.3, 0.2),
            o(0.1, 0.2),
            o(0.2, 0.1),
        ];
        let mut expected = orders.clone();
        expected.sort_by(|l, r| r.price().cmp(&l.price()));
        assert!(OrderBookBids::new(orders).is_ok_and(|bids| bids.orders() == &expected));
    }
}

fn default_amount<const QUOTE: bool>(orders: &OrderBookDiff<QUOTE>) -> OrderBookDiff<QUOTE> {
    OrderBookDiff::new_sorted(orders.orders().iter().map(|o| o.empty()).collect()).unwrap()
}

#[test]
fn merge_bids() {
    {
        let bids = OrderBookDiffBids::default();
        let diff = OrderBookDiffBids::new_sorted(vec![
            o(2.0, 1.5),
            o(1.5, 1.0),
            o(0.5, 2.5),
        ]).unwrap();

        let bids = bids.merge(&diff);
        assert_eq!(&bids, &diff);

        let bids = bids.merge(&OrderBookDiff::default());
        assert_eq!(&bids, &diff);

        let bids = bids.merge(&diff);
        assert_eq!(&bids, &diff);

        let bids =
            bids.merge(&default_amount(&diff));
        assert_eq!(&bids, &default_amount(&diff));

        let bids = bids.merge(&diff);
        assert_eq!(&bids, &diff);

        let diff = OrderBookDiffBids::new_sorted(vec![
            o(2.1, 0.5),
            o(1.9, 0.7),
            o(1.5, 0.0),
            o(0.6, 5.0),
            o(0.1, 1.5),
        ]).unwrap();
        let expected = OrderBookDiffBids::new_sorted(vec![
            o(2.1, 0.5),
            o(2.0, 1.5),
            o(1.9, 0.7),
            o(1.5, 0.0),
            o(0.6, 5.0),
            o(0.5, 2.5),
            o(0.1, 1.5),
        ]).unwrap();

        let bids = bids.merge(&diff);
        assert_eq!(&bids, &expected);

        let diff = OrderBookDiffBids::new_sorted(vec![
            o(2.1, 0.0),
            o(1.9, 0.8),
            o(1.5, 0.1),
            o(0.9, 4.0),
            o(0.7, 4.0),
            o(0.4, 4.0),
            o(0.3, 4.0),
            o(0.2, 0.5),
        ]).unwrap();

        let expected = OrderBookDiffBids::new_sorted(vec![
            o(2.1, 0.0),
            o(2.0, 1.5),
            o(1.9, 0.8),
            o(1.5, 0.1),
            o(0.9, 4.0),
            o(0.7, 4.0),
            o(0.6, 5.0),
            o(0.5, 2.5),
            o(0.4, 4.0),
            o(0.3, 4.0),
            o(0.2, 0.5),
            o(0.1, 1.5),
        ]).unwrap();
        let bids = bids.merge(&diff);
        assert_eq!(&bids, &expected);
    }
}

#[test]
fn merge_asks() {
    {
        let asks = OrderBookDiff::default();
        let diff = OrderBookDiffAsks::new_sorted(vec![
            o(0.5, 2.5),
            o(1.5, 1.0),
            o(2.0, 1.5),
        ]).unwrap();

        let asks = asks.merge(&diff);
        assert_eq!(&asks, &diff);

        let asks = asks.merge(&OrderBookDiff::default());
        assert_eq!(&asks, &diff);

        let asks = asks.merge(&diff);
        assert_eq!(&asks, &diff);

        let asks =
            asks.merge(&default_amount(&diff));
        assert_eq!(&asks, &default_amount(&diff));

        let asks = asks.merge(&diff);
        assert_eq!(&asks, &diff);

        let diff = OrderBookDiffAsks::new_sorted(vec![
            o(0.1, 1.5),
            o(0.6, 5.0),
            o(1.5, 0.0),
            o(1.9, 0.7),
            o(2.1, 0.5),
        ]).unwrap();
        let expected = OrderBookDiffAsks::new_sorted(vec![
            o(0.1, 1.5),
            o(0.5, 2.5),
            o(0.6, 5.0),
            o(1.5, 0.0),
            o(1.9, 0.7),
            o(2.0, 1.5),
            o(2.1, 0.5),
        ]).unwrap();

        let asks = asks.merge(&diff);
        assert_eq!(&asks, &expected);

        let diff = OrderBookDiffAsks::new_sorted(vec![
            o(0.2, 0.5),
            o(0.3, 4.0),
            o(0.4, 4.0),
            o(0.7, 4.0),
            o(0.9, 4.0),
            o(1.5, 0.1),
            o(1.9, 0.8),
            o(2.1, 0.0),
        ]).unwrap();

        let expected = OrderBookDiffAsks::new_sorted(vec![
            o(0.1, 1.5),
            o(0.2, 0.5),
            o(0.3, 4.0),
            o(0.4, 4.0),
            o(0.5, 2.5),
            o(0.6, 5.0),
            o(0.7, 4.0),
            o(0.9, 4.0),
            o(1.5, 0.1),
            o(1.9, 0.8),
            o(2.0, 1.5),
            o(2.1, 0.0),
        ]).unwrap();
        let asks = asks.merge(&diff);
        assert_eq!(&asks, &expected);
    }
}

#[test]
fn update_bids() {
    {
        let bids = OrderBookBids::default();
        let diff = OrderBookDiffBids::new_sorted(vec![
            o(2.0, 1.5),
            o(1.5, 1.0),
            o(0.5, 2.5),
        ]).unwrap();

        let bids = bids.update(&diff);
        assert_eq!(bids.as_diff(), &diff);

        let bids = bids.update(&OrderBookDiff::default());
        assert_eq!(bids.as_diff(), &diff);

        let bids = bids.update(&diff);
        assert_eq!(bids.as_diff(), &diff);

        let bids = bids.update(&default_amount(&diff));
        assert!(bids.orders().is_empty());

        let bids = bids.update(&diff);
        assert_eq!(bids.as_diff(), &diff);

        let diff = OrderBookDiffBids::new_sorted(vec![
            o(2.1, 0.5),
            o(1.9, 0.7),
            o(1.5, 0.0),
            o(0.6, 5.0),
            o(0.1, 1.5),
        ]).unwrap();
        let expected = OrderBookDiffBids::new_sorted(vec![
            o(2.1, 0.5),
            o(2.0, 1.5),
            o(1.9, 0.7),
            o(0.6, 5.0),
            o(0.5, 2.5),
            o(0.1, 1.5),
        ]).unwrap();

        let bids = bids.update(&diff);
        assert_eq!(bids.as_diff(), &expected);

        let diff = OrderBookDiffBids::new_sorted(vec![
            o(2.1, 0.0),
            o(1.9, 0.8),
            o(1.5, 0.0),
            o(1.0, 0.1),
            o(0.9, 4.0),
            o(0.7, 4.0),
            o(0.4, 4.0),
            o(0.3, 4.0),
            o(0.2, 0.5),
        ]).unwrap();

        let expected = OrderBookDiffBids::new_sorted(vec![
            o(2.0, 1.5),
            o(1.9, 0.8),
            o(1.0, 0.1),
            o(0.9, 4.0),
            o(0.7, 4.0),
            o(0.6, 5.0),
            o(0.5, 2.5),
            o(0.4, 4.0),
            o(0.3, 4.0),
            o(0.2, 0.5),
        ]).unwrap();
        let bids = bids.update(&diff);
        assert_eq!(bids.as_diff(), &expected);
    }
}

#[test]
fn update_asks() {
    {
        let asks = OrderBookAsks::default();
        let diff = OrderBookDiffAsks::new_sorted(vec![
            o(0.5, 2.5),
            o(1.5, 1.0),
            o(2.0, 1.5),
        ]).unwrap();

        let asks = asks.update(&diff);
        assert_eq!(asks.as_diff(), &diff);

        let asks = asks.update(&OrderBookDiff::default());
        assert_eq!(asks.as_diff(), &diff);

        let asks = asks.update(&diff);
        assert_eq!(asks.as_diff(), &diff);

        let asks = asks.update(&default_amount(&diff));
        assert!(asks.orders().is_empty());

        let asks = asks.update(&diff);
        assert_eq!(asks.as_diff(), &diff);

        let diff = OrderBookDiffAsks::new_sorted(vec![
            o(0.1, 1.5),
            o(0.6, 5.0),
            o(1.5, 0.0),
            o(1.9, 0.7),
            o(2.1, 0.5),
        ]).unwrap();
        let expected = OrderBookDiffAsks::new_sorted(vec![
            o(0.1, 1.5),
            o(0.5, 2.5),
            o(0.6, 5.0),
            o(1.9, 0.7),
            o(2.0, 1.5),
            o(2.1, 0.5),
        ]).unwrap();

        let asks = asks.update(&diff);
        assert_eq!(asks.as_diff(), &expected);

        let diff = OrderBookDiffAsks::new_sorted(vec![
            o(0.2, 0.5),
            o(0.3, 4.0),
            o(0.4, 4.0),
            o(0.7, 4.0),
            o(0.9, 4.0),
            o(1.0, 0.1),
            o(1.5, 0.0),
            o(1.9, 0.8),
            o(2.1, 0.0),
        ]).unwrap();

        let expected = OrderBookDiffAsks::new_sorted(vec![
            o(0.1, 1.5),
            o(0.2, 0.5),
            o(0.3, 4.0),
            o(0.4, 4.0),
            o(0.5, 2.5),
            o(0.6, 5.0),
            o(0.7, 4.0),
            o(0.9, 4.0),
            o(1.0, 0.1),
            o(1.9, 0.8),
        ]).unwrap();
        let asks = asks.update(&diff);
        assert_eq!(asks.as_diff(), &expected);
    }
}

#[test]
fn spread_summary() {
    let spread = spread_value(SummaryOrderBook::spread(&Vec::<SummaryOrder>::default(), &Vec::<SummaryOrder>::default()));
    assert!(spread.is_nan());

    {
        let bids = vec![SummaryOrder(
            Exchange::Bitstamp,
            o(2.3, 0.1),
        )];
        let asks = vec![SummaryOrder(
            Exchange::Binance,
            o(2.1, 1.1),
        )];
        let spread =
            spread_value(SummaryOrderBook::spread(&Vec::<SummaryOrder>::default(), &asks));
        assert!(spread.is_infinite() && spread.is_sign_negative());

        let spread =
            spread_value(SummaryOrderBook::spread(&bids, &Vec::<SummaryOrder>::default()));
        assert!(spread.is_infinite() && spread.is_sign_positive());

        let bids = vec![SummaryOrder(
            Exchange::Bitstamp,
            o(2.3, 0.1),
        )];
        let asks = vec![SummaryOrder(
            Exchange::Binance,
            o(2.1, 1.1),
        )];
        let spread = spread_value(SummaryOrderBook::spread(&bids, &asks));
        assert!((spread - 0.2).abs() <= 1E-15, "left: {} not equal to right: {}", spread, 0.2);

        let bids = vec![SummaryOrder(
            Exchange::Bitstamp,
            o(2.1, 0.1),
        )];
        let asks = vec![SummaryOrder(
            Exchange::Binance,
            o(2.3, 1.1),
        )];
        let spread = spread_value(SummaryOrderBook::spread(&bids, &asks));
        assert!((spread - -0.2).abs() <= 1E-15, "left: {} not equal to right: {}", spread, -0.2);
    }
}

#[test]
fn reset_summary() {
    let mut summary = SummaryOrderBook::default();

    {
        let bin_bids = book_of(vec![
            o(1.1, 0.1),
            o(1.0, 0.1),
        ]);
        let bin_asks = book_of(vec![
            o(0.8, 0.1),
            o(0.9, 0.1),
        ]);
        summary.reset(Exchange::Binance, bin_bids.clone(), bin_asks.clone());
        assert!(summary.asks().into_iter().eq(bin_asks
            .orders()
            .iter()
            .map(|o| SummaryOrder(Exchange::Binance, *o))));
        assert!(summary.bids().into_iter().eq(bin_bids
            .orders()
            .iter()
            .map(|o| SummaryOrder(Exchange::Binance, *o))));

        let bit_bids = book_of(vec![
            o(2.1, 1.1),
            o(2.0, 1.1),
        ]);
        let bit_asks = book_of(vec![
            o(1.8, 2.1),
            o(1.9, 2.1),
        ]);
        summary.reset(Exchange::Bitstamp, bit_bids.clone(), bit_asks.clone());
        assert!(summary.asks().into_iter().eq(bin_asks
            .orders()
            .iter()
            .map(|o| SummaryOrder(Exchange::Binance, *o))
            .chain(
                bit_asks
                    .orders()
                    .iter()
                    .map(|o| SummaryOrder(Exchange::Bitstamp, *o))
            )));
        assert!(summary.bids().into_iter().eq(bit_bids
            .orders()
            .iter()
            .map(|o| SummaryOrder(Exchange::Bitstamp, *o))
            .chain(
                bin_bids
                    .orders()
                    .iter()
                    .map(|o| SummaryOrder(Exchange::Binance, *o))
            )));

        let bin_bids = book_of(vec![
            o(2.1, 0.1),
            o(2.0, 0.1),
        ]);
        let bin_asks = book_of(vec![
            o(1.8, 0.1),
            o(1.9, 0.1),
        ]);
        summary.reset(Exchange::Binance, bin_bids.clone(), bin_asks.clone());
        assert!(summary.asks().into_iter().eq(bit_asks
            .orders()
            .iter()
            .map(|o| SummaryOrder(Exchange::Bitstamp, *o))
            .interleave(
                bin_asks
                    .orders()
                    .iter()
                    .map(|o| SummaryOrder(Exchange::Binance, *o))
            )));

        assert!(summary.bids().into_iter().eq(bit_bids
            .orders()
            .iter()
            .map(|o| SummaryOrder(Exchange::Bitstamp, *o))
            .interleave(
                bin_bids
                    .orders()
                    .iter()
                    .map(|o| SummaryOrder(Exchange::Binance, *o))
            )));

        summary.reset(
            Exchange::Bitstamp,
            OrderBook::default(),
            OrderBook::default(),
        );
        assert!(summary.asks().into_iter().eq(bin_asks
            .orders()
            .iter()
            .map(|o| SummaryOrder(Exchange::Binance, *o))));
        assert!(summary.bids().into_iter().eq(bin_bids
            .orders()
            .iter()
            .map(|o| SummaryOrder(Exchange::Binance, *o))));

        summary.reset(
            Exchange::Binance,
            OrderBook::default(),
            OrderBook::default(),
        );
        assert_eq!(summary.asks().len(), 0);
        assert_eq!(summary.bids().len(), 0);

        let bin_bids = book_of(vec![
            o(2.0, 1.1),
            o(1.9, 1.2),
            o(1.8, 1.3),
            o(1.7, 1.4),
            o(1.6, 1.5),
            o(1.5, 1.6),
            o(1.4, 1.7),
            o(1.3, 1.8),
            o(1.2, 1.9),
            o(1.1, 2.0),
        ]);
        let bin_asks = book_of(vec![
            o(2.1, 1.1),
            o(2.2, 1.2),
            o(2.3, 1.3),
            o(2.4, 1.4),
            o(2.5, 1.5),
            o(2.6, 1.6),
            o(2.7, 1.7),
            o(2.8, 1.8),
            o(2.9, 1.9),
            o(3.0, 2.0),
        ]);
        let bit_bids = book_of(vec![
            o(2.3, 0.1),
            o(2.2, 0.2),
            o(2.1, 0.3),
            o(2.0, 0.4),
            o(1.9, 0.5),
            o(1.8, 0.6),
            o(1.7, 0.7),
            o(1.6, 0.8),
            o(1.5, 0.9),
            o(1.4, 1.0),
        ]);
        let bit_asks = book_of(vec![
            o(2.4, 0.1),
            o(2.5, 0.2),
            o(2.6, 0.3),
            o(2.7, 0.4),
            o(2.8, 0.5),
            o(2.9, 0.6),
            o(3.0, 0.7),
            o(3.1, 0.8),
            o(3.2, 0.9),
            o(3.3, 1.0),
        ]);
        summary.reset(Exchange::Binance, bin_bids, bin_asks);
        summary.reset(Exchange::Bitstamp, bit_bids, bit_asks);
        let bids = vec![
            SummaryOrder(Exchange::Bitstamp, o(2.3, 0.1)),
            SummaryOrder(Exchange::Bitstamp, o(2.2, 0.2)),
            SummaryOrder(Exchange::Bitstamp, o(2.1, 0.3)),
            SummaryOrder(Exchange::Binance, o(2.0, 1.1)),
            SummaryOrder(Exchange::Bitstamp, o(2.0, 0.4)),
            SummaryOrder(Exchange::Binance, o(1.9, 1.2)),
            SummaryOrder(Exchange::Bitstamp, o(1.9, 0.5)),
            SummaryOrder(Exchange::Binance, o(1.8, 1.3)),
            SummaryOrder(Exchange::Bitstamp, o(1.8, 0.6)),
            SummaryOrder(Exchange::Binance, o(1.7, 1.4)),
        ];
        let asks = vec![
            SummaryOrder(Exchange::Binance, o(2.1, 1.1)),
            SummaryOrder(Exchange::Binance, o(2.2, 1.2)),
            SummaryOrder(Exchange::Binance, o(2.3, 1.3)),
            SummaryOrder(Exchange::Binance, o(2.4, 1.4)),
            SummaryOrder(Exchange::Bitstamp, o(2.4, 0.1)),
            SummaryOrder(Exchange::Binance, o(2.5, 1.5)),
            SummaryOrder(Exchange::Bitstamp, o(2.5, 0.2)),
            SummaryOrder(Exchange::Binance, o(2.6, 1.6)),
            SummaryOrder(Exchange::Bitstamp, o(2.6, 0.3)),
            SummaryOrder(Exchange::Binance, o(2.7, 1.7)),
        ];
        assert!(summary.asks().into_iter().eq(asks.into_iter()));
        assert!(summary.bids().into_iter().eq(bids.into_iter()));
    }
}
