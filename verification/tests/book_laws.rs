use minimalist_order_book::decimal::Decimal;
use minimalist_order_book::ladder::{Levels, PriceLevel};
use minimalist_order_book::order::Order;
use minimalist_order_book::orderbook::{OrderBook, OrderError};
use minimalist_order_book::types::{Fill, OrderId, Quantity, Side};

/// The quantities that rest on a side, in hundredths.
fn total(levels: &Levels) -> i128 {
    levels
        .values()
        .flat_map(|level| level.orders.iter())
        .map(|order| hundredths(order.quantity))
        .sum()
}

/// A quantity with at most two decimal places, in hundredths.
fn hundredths(quantity: Quantity) -> i128 {
    assert!(quantity.scale() <= 2);
    quantity.mantissa() * 10i128.pow(2 - quantity.scale())
}

fn traded(fills: &[Fill]) -> i128 {
    fills.iter().map(|fill| hundredths(fill.quantity)).sum()
}

fn makers(fills: &[Fill]) -> Vec<OrderId> {
    fills.iter().map(|fill| fill.maker_order_id).collect()
}

/// Asks of 1.25 and 2.5 at 100, 3 at 101 and 4.75 at 103.
fn asks() -> OrderBook {
    let mut book = OrderBook::new();
    book.add_limit_order(1, Side::Sell, Decimal::from(100), Decimal::new(125, 2));
    book.add_limit_order(2, Side::Sell, Decimal::from(100), Decimal::new(25, 1));
    book.add_limit_order(3, Side::Sell, Decimal::from(101), Decimal::from(3));
    book.add_limit_order(4, Side::Sell, Decimal::from(103), Decimal::new(475, 2));
    book
}

#[test]
fn nothing_is_lost_in_trades() {
    let mut book = asks();
    let before = total(&book.asks);
    let fills = book.add_limit_order(5, Side::Buy, Decimal::from(101), Decimal::new(1001, 2));
    assert_eq!(traded(&fills), 675);
    assert_eq!(total(&book.asks), before - 675);
    assert_eq!(total(&book.bids), 1001 - 675);
}

#[test]
fn subtraction_keeps_the_longer_number_of_places() {
    let mut book = OrderBook::new();
    book.add_limit_order(1, Side::Sell, Decimal::from(100), Decimal::new(1, 28));
    let fills = book.add_limit_order(2, Side::Buy, Decimal::from(100), Decimal::from(3));
    assert_eq!(fills[0].quantity, Decimal::new(1, 28));
    let level = book.bids.values().next().unwrap();
    let rest = level.orders[0].quantity;
    assert_eq!(rest.scale(), 28);
    assert_eq!(rest.mantissa(), 29_999_999_999_999_999_999_999_999_999);
}

#[test]
fn subtraction_rounds_what_does_not_fit() {
    let mut book = OrderBook::new();
    book.add_limit_order(1, Side::Sell, Decimal::from(100), Decimal::new(4, 1));
    let all = Decimal::max_value();
    let fills = book.add_limit_order(2, Side::Buy, Decimal::from(100), all);
    assert_eq!(fills.len(), 1);
    let level = book.bids.values().next().unwrap();
    assert_eq!(level.orders[0].quantity, all);
}

#[test]
fn every_trade_is_for_something() {
    let mut book = asks();
    let fills = book.add_market_order(5, Side::Buy, Decimal::from(100));
    assert_eq!(fills.len(), 4);
    for fill in &fills {
        assert!(hundredths(fill.quantity) > 0);
    }
}

#[test]
fn limits_are_respected_best_price_first() {
    let mut book = asks();
    let fills = book.add_limit_order(5, Side::Buy, Decimal::from(102), Decimal::from(50));
    assert_eq!(makers(&fills), vec![1, 2, 3]);
    let prices: Vec<i128> = fills.iter().map(|fill| hundredths(fill.price)).collect();
    assert_eq!(prices, vec![10000, 10000, 10100]);
    assert_eq!(book.best_ask(), Some(Decimal::from(103)));
    assert_eq!(book.best_bid(), Some(Decimal::from(102)));

    let fills = book.add_limit_order(6, Side::Sell, Decimal::from(99), Decimal::from(1));
    assert_eq!(fills[0].price, Decimal::from(102));
    assert_eq!(fills[0].maker_order_id, 5);
}

#[test]
fn first_come_first_served() {
    let mut book = asks();
    let fills = book.add_limit_order(5, Side::Buy, Decimal::from(100), Decimal::from(2));
    assert_eq!(makers(&fills), vec![1, 2]);
    assert_eq!(fills[0].quantity, Decimal::new(125, 2));
    assert_eq!(fills[1].quantity, Decimal::new(75, 2));
    let level = book.asks.values().next().unwrap();
    assert_eq!(level.orders.len(), 1);
    assert_eq!(level.orders[0].id, 2);
    assert_eq!(level.orders[0].quantity, Decimal::new(175, 2));
}

#[test]
fn market_orders_never_rest() {
    let mut book = asks();
    book.add_limit_order(5, Side::Buy, Decimal::from(99), Decimal::from(1));
    book.add_market_order(6, Side::Buy, Decimal::from(1000));
    assert!(book.asks.is_empty());
    assert_eq!(book.bids.len(), 1);
    assert_eq!(book.best_bid(), Some(Decimal::from(99)));
    assert!(!book.order_index.contains_key(&6));
}

#[test]
fn market_sell_takes_no_price_below_zero() {
    let mut book = OrderBook::new();
    book.add_limit_order(1, Side::Buy, Decimal::from(-5), Decimal::from(1));
    assert!(book.add_market_order(2, Side::Sell, Decimal::from(1)).is_empty());
    let fills = book.add_limit_order(3, Side::Sell, Decimal::from(-6), Decimal::from(1));
    assert_eq!(fills[0].price, Decimal::from(-5));
}

#[test]
fn an_order_is_cancelled_once() {
    let mut book = asks();
    assert!(book.cancel_order(3).is_ok());
    let error = book.cancel_order(3).unwrap_err();
    assert!(matches!(error, OrderError::NotFound(3)));
    assert_eq!(book.asks.len(), 2);
}

#[test]
fn adding_and_cancelling_leaves_no_trace() {
    let mut book = asks();
    let before: Vec<OrderId> = book.asks.values().flat_map(|l| l.orders.iter()).map(|o| o.id).collect();
    book.add_limit_order(9, Side::Sell, Decimal::from(100), Decimal::from(7));
    book.add_limit_order(10, Side::Sell, Decimal::from(104), Decimal::from(7));
    book.cancel_order(9).unwrap();
    book.cancel_order(10).unwrap();
    let after: Vec<OrderId> = book.asks.values().flat_map(|l| l.orders.iter()).map(|o| o.id).collect();
    assert_eq!(after, before);
    assert_eq!(book.asks.len(), 3);
    assert_eq!(book.order_index.len(), 4);
    assert!(book.bids.is_empty());
}

#[test]
fn the_index_follows_the_orders() {
    let mut book = asks();
    book.add_limit_order(5, Side::Buy, Decimal::from(100), Decimal::from(2));
    let mut ids: Vec<OrderId> = book.order_index.keys().copied().collect();
    ids.sort();
    assert_eq!(ids, vec![2, 3, 4]);
    assert!(book.cancel_order(1).is_err());
    assert!(book.cancel_order(5).is_err());
    assert!(book.cancel_order(2).is_ok());
}

#[test]
fn the_book_never_crosses() {
    let mut book = OrderBook::new();
    for i in 0..60u64 {
        let side = if (i * 7) % 3 == 0 { Side::Buy } else { Side::Sell };
        let price = Decimal::from(100 + ((i * 13) % 11) as i64);
        book.add_limit_order(i, side, price, Decimal::from(1 + (i % 5) as i64));
        if i % 4 == 0 {
            let _ = book.cancel_order(i / 2);
        }
        if let Some((bid, ask)) = book.spread() {
            assert!(hundredths(bid) < hundredths(ask));
        }
    }
}

#[test]
fn equal_prices_share_a_level() {
    let mut book = OrderBook::new();
    book.add_limit_order(1, Side::Buy, Decimal::from(100), Decimal::from(1));
    book.add_limit_order(2, Side::Buy, Decimal::new(10000, 2), Decimal::from(1));
    assert_eq!(book.bids.len(), 1);
    assert_eq!(book.best_bid().unwrap().scale(), 0);
    let fills = book.add_limit_order(3, Side::Sell, Decimal::new(1000, 1), Decimal::from(2));
    assert_eq!(makers(&fills), vec![1, 2]);
    assert_eq!(fills[1].price.scale(), 0);
}

#[test]
fn an_order_for_nothing_does_nothing() {
    let mut book = asks();
    assert!(book.add_limit_order(5, Side::Buy, Decimal::from(200), Decimal::zero()).is_empty());
    assert!(book.add_limit_order(6, Side::Buy, Decimal::from(200), Decimal::from(-1)).is_empty());
    assert!(book.bids.is_empty());
    assert_eq!(book.asks.len(), 3);
}

#[test]
fn a_default_book_is_empty() {
    let book = OrderBook::default();
    assert!(book.bids.is_empty());
    assert!(book.asks.is_empty());
    assert!(book.order_index.is_empty());
}

#[test]
fn levels_without_orders_are_passed_over() {
    let level = |price: i64, ids: &[u64]| PriceLevel {
        price: Decimal::from(price),
        orders: ids
            .iter()
            .map(|id| Order { id: *id, price: Decimal::from(price), quantity: Decimal::from(10) })
            .collect(),
    };
    let mut book = OrderBook::new();
    book.bids.insert((-110, 0), level(110, &[]));
    book.bids.insert((-100, 0), level(100, &[1]));
    book.bids.insert((-90, 0), level(90, &[2]));
    assert_eq!(book.best_bid(), Some(Decimal::from(100)));
    assert_eq!(book.best_ask(), None);
    book.asks.insert((115, 0), level(115, &[]));
    assert_eq!(book.best_ask(), None);
    assert_eq!(book.spread(), None);
    book.asks.insert((120, 0), level(120, &[3]));
    assert_eq!(book.spread(), Some((Decimal::from(100), Decimal::from(120))));
}

#[test]
fn subtraction_drops_zeros_before_it_rounds() {
    let mut book = OrderBook::new();
    book.add_limit_order(1, Side::Sell, Decimal::from(100), Decimal::new(100, 2));
    let large = Decimal::from_parts(false, 7_000_000_000_000_000_000_000_000_000, 0).unwrap();
    book.add_limit_order(2, Side::Buy, Decimal::from(100), large);
    let level = book.bids.values().next().unwrap();
    let rest = level.orders[0].quantity;
    assert_eq!(rest.mantissa(), 69_999_999_999_999_999_999_999_999_990);
    assert_eq!(rest.scale(), 1);
}

#[test]
fn an_order_may_as_well_come_in_two_parts() {
    let mut parts = asks();
    let mut whole = asks();
    let first = parts.add_market_order(5, Side::Buy, Decimal::new(22, 1));
    let second = parts.add_market_order(5, Side::Buy, Decimal::new(305, 2));
    let all = whole.add_market_order(5, Side::Buy, Decimal::new(525, 2));
    for maker in 1..=4 {
        let of = |fills: &[Fill]| -> i128 {
            fills
                .iter()
                .filter(|fill| fill.maker_order_id == maker)
                .map(|fill| hundredths(fill.quantity))
                .sum()
        };
        assert_eq!(of(&first) + of(&second), of(&all));
    }
    assert_eq!(total(&parts.asks), total(&whole.asks));
    let ids = |book: &OrderBook| -> Vec<OrderId> {
        book.asks.values().flat_map(|level| level.orders.iter()).map(|order| order.id).collect()
    };
    assert_eq!(ids(&parts), ids(&whole));
    assert_eq!(parts.order_index.len(), whole.order_index.len());
}
