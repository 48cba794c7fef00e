use minimalist_order_book::decimal::Decimal;
use minimalist_order_book::fixed_orderbook::FixedOrderBook;
use minimalist_order_book::types::{Fill, Side};

/// Book with base=90, tick=1, 30 levels -> prices 90..=119
fn make_book() -> FixedOrderBook<30, 64> {
    FixedOrderBook::<30, 64>::new(Decimal::from(90), Decimal::from(1))
}

#[test]
fn fixed_orderbook_test_add_and_cancel_order() {
    let mut book = make_book();
    book.add_limit_order(1, Side::Buy, Decimal::from(100), Decimal::from(10))
        .unwrap();
    book.add_limit_order(2, Side::Sell, Decimal::from(105), Decimal::from(10))
        .unwrap();

    assert_eq!(book.best_bid(), Some(Decimal::from(100)));
    assert_eq!(book.best_ask(), Some(Decimal::from(105)));
    assert_eq!(
        book.spread(),
        Some((Decimal::from(100), Decimal::from(105)))
    );

    assert!(book.cancel_order(1).is_ok());
    assert_eq!(book.best_bid(), None);
    assert_eq!(book.spread(), None);

    assert!(book.cancel_order(2).is_ok());
    assert_eq!(book.best_ask(), None);
}

#[test]
fn fixed_orderbook_test_cancel_nonexistent_order() {
    let mut book = make_book();
    assert!(book.cancel_order(999).is_err());
}

#[test]
fn fixed_orderbook_test_best_bid_ask_ordering() {
    let mut book = make_book();
    book.add_limit_order(1, Side::Buy, Decimal::from(100), Decimal::from(10))
        .unwrap();
    book.add_limit_order(2, Side::Buy, Decimal::from(110), Decimal::from(10))
        .unwrap();
    book.add_limit_order(3, Side::Buy, Decimal::from(105), Decimal::from(10))
        .unwrap();
    assert_eq!(book.best_bid(), Some(Decimal::from(110)));

    book.add_limit_order(4, Side::Sell, Decimal::from(115), Decimal::from(10))
        .unwrap();
    book.add_limit_order(5, Side::Sell, Decimal::from(112), Decimal::from(10))
        .unwrap();
    book.add_limit_order(6, Side::Sell, Decimal::from(119), Decimal::from(10))
        .unwrap();
    assert_eq!(book.best_ask(), Some(Decimal::from(112)));
}

#[test]
fn fixed_orderbook_test_spread() {
    let mut book = make_book();
    assert_eq!(book.spread(), None);

    book.add_limit_order(1, Side::Buy, Decimal::from(100), Decimal::from(10))
        .unwrap();
    assert_eq!(book.spread(), None);

    book.add_limit_order(2, Side::Sell, Decimal::from(105), Decimal::from(10))
        .unwrap();
    assert_eq!(
        book.spread(),
        Some((Decimal::from(100), Decimal::from(105)))
    );

    // Narrow the spread
    book.add_limit_order(3, Side::Buy, Decimal::from(102), Decimal::from(10))
        .unwrap();
    book.add_limit_order(4, Side::Sell, Decimal::from(104), Decimal::from(10))
        .unwrap();
    assert_eq!(
        book.spread(),
        Some((Decimal::from(102), Decimal::from(104)))
    );

    // Remove inner orders, spread should widen
    book.add_limit_order(5, Side::Buy, Decimal::from(103), Decimal::from(10))
        .unwrap();
    assert_eq!(
        book.spread(),
        Some((Decimal::from(103), Decimal::from(104)))
    );
    book.cancel_order(5).unwrap();
    assert_eq!(
        book.spread(),
        Some((Decimal::from(102), Decimal::from(104)))
    );
}

#[test]
fn test_price_out_of_range() {
    let mut book = make_book(); // prices 90..=119
    assert!(
        book.add_limit_order(1, Side::Buy, Decimal::from(89), Decimal::from(10))
            .is_err()
    );
    assert!(
        book.add_limit_order(2, Side::Buy, Decimal::from(120), Decimal::from(10))
            .is_err()
    );
    assert!(
        book.add_limit_order(3, Side::Buy, Decimal::from(90), Decimal::from(10))
            .is_ok()
    );
    assert!(
        book.add_limit_order(4, Side::Sell, Decimal::from(119), Decimal::from(10))
            .is_ok()
    );
}

#[test]
fn test_level_full() {
    let mut book = FixedOrderBook::<10, 2>::new(Decimal::from(100), Decimal::from(1));
    book.add_limit_order(1, Side::Buy, Decimal::from(105), Decimal::from(10))
        .unwrap();
    book.add_limit_order(2, Side::Buy, Decimal::from(105), Decimal::from(20))
        .unwrap();
    // Third order at same price should fail (DEPTH=2)
    let result = book.add_limit_order(3, Side::Buy, Decimal::from(105), Decimal::from(30));
    assert!(result.is_err());
}

#[test]
fn test_cancel_best_bid_updates_best() {
    let mut book = make_book();
    book.add_limit_order(1, Side::Buy, Decimal::from(110), Decimal::from(10))
        .unwrap();
    book.add_limit_order(2, Side::Buy, Decimal::from(100), Decimal::from(10))
        .unwrap();

    assert_eq!(book.best_bid(), Some(Decimal::from(110)));
    book.cancel_order(1).unwrap();
    assert_eq!(book.best_bid(), Some(Decimal::from(100)));
}

#[test]
fn test_cancel_best_ask_updates_best() {
    let mut book = make_book();
    book.add_limit_order(1, Side::Sell, Decimal::from(95), Decimal::from(10))
        .unwrap();
    book.add_limit_order(2, Side::Sell, Decimal::from(105), Decimal::from(10))
        .unwrap();

    assert_eq!(book.best_ask(), Some(Decimal::from(95)));
    book.cancel_order(1).unwrap();
    assert_eq!(book.best_ask(), Some(Decimal::from(105)));
}

#[test]
fn test_multiple_orders_same_level_cancel_preserves_best() {
    let mut book = make_book();
    book.add_limit_order(1, Side::Buy, Decimal::from(100), Decimal::from(10))
        .unwrap();
    book.add_limit_order(2, Side::Buy, Decimal::from(100), Decimal::from(20))
        .unwrap();

    book.cancel_order(1).unwrap();
    assert_eq!(book.best_bid(), Some(Decimal::from(100)));
}

#[test]
fn test_compact_level() {
    let mut book = FixedOrderBook::<10, 8>::new(Decimal::from(100), Decimal::from(1));
    book.add_limit_order(1, Side::Buy, Decimal::from(105), Decimal::from(10))
        .unwrap();
    book.add_limit_order(2, Side::Buy, Decimal::from(105), Decimal::from(20))
        .unwrap();
    book.add_limit_order(3, Side::Buy, Decimal::from(105), Decimal::from(30))
        .unwrap();
    book.add_limit_order(4, Side::Buy, Decimal::from(105), Decimal::from(40))
        .unwrap();

    book.cancel_order(1).unwrap();
    book.cancel_order(3).unwrap();

    let level_idx = 5; // price 105 - base 100 = 5
    book.compact_level(Side::Buy, level_idx);

    assert_eq!(book.best_bid(), Some(Decimal::from(105)));
    book.cancel_order(2).unwrap();
    book.cancel_order(4).unwrap();
    assert_eq!(book.best_bid(), None);
}

#[test]
fn test_non_tick_aligned_price_rejected() {
    let mut book = FixedOrderBook::<100, 64>::new(Decimal::from(100), Decimal::new(1, 2));
    assert!(
        book.add_limit_order(1, Side::Buy, Decimal::new(100005, 3), Decimal::from(10))
            .is_err()
    );
    assert!(
        book.add_limit_order(2, Side::Buy, Decimal::new(10001, 2), Decimal::from(10))
            .is_ok()
    );
}

#[test]
fn fixed_orderbook_test_exact_fill() {
    let mut book = make_book();
    book.add_limit_order(1, Side::Sell, Decimal::from(100), Decimal::from(10))
        .unwrap();
    let fills = book
        .add_limit_order(2, Side::Buy, Decimal::from(100), Decimal::from(10))
        .unwrap();
    assert_eq!(fills.len(), 1);
    assert_eq!(
        fills[0],
        Fill {
            maker_order_id: 1,
            taker_order_id: 2,
            price: Decimal::from(100),
            quantity: Decimal::from(10),
        }
    );
    assert_eq!(book.best_bid(), None);
    assert_eq!(book.best_ask(), None);
}

#[test]
fn fixed_orderbook_test_partial_fill_taker_remains() {
    let mut book = make_book();
    book.add_limit_order(1, Side::Sell, Decimal::from(100), Decimal::from(5))
        .unwrap();
    let fills = book
        .add_limit_order(2, Side::Buy, Decimal::from(100), Decimal::from(10))
        .unwrap();
    assert_eq!(fills.len(), 1);
    assert_eq!(fills[0].quantity, Decimal::from(5));
    assert_eq!(book.best_ask(), None);
    assert_eq!(book.best_bid(), Some(Decimal::from(100)));
}

#[test]
fn fixed_orderbook_test_partial_fill_maker_remains() {
    let mut book = make_book();
    book.add_limit_order(1, Side::Sell, Decimal::from(100), Decimal::from(10))
        .unwrap();
    let fills = book
        .add_limit_order(2, Side::Buy, Decimal::from(100), Decimal::from(5))
        .unwrap();
    assert_eq!(fills.len(), 1);
    assert_eq!(fills[0].quantity, Decimal::from(5));
    assert_eq!(book.best_ask(), Some(Decimal::from(100)));
    assert_eq!(book.best_bid(), None);
}

#[test]
fn fixed_orderbook_test_multi_level_sweep() {
    let mut book = make_book();
    book.add_limit_order(1, Side::Sell, Decimal::from(100), Decimal::from(5))
        .unwrap();
    book.add_limit_order(2, Side::Sell, Decimal::from(101), Decimal::from(5))
        .unwrap();
    book.add_limit_order(3, Side::Sell, Decimal::from(102), Decimal::from(5))
        .unwrap();

    let fills = book
        .add_limit_order(4, Side::Buy, Decimal::from(102), Decimal::from(12))
        .unwrap();
    assert_eq!(fills.len(), 3);
    assert_eq!(fills[0].maker_order_id, 1);
    assert_eq!(fills[0].price, Decimal::from(100));
    assert_eq!(fills[0].quantity, Decimal::from(5));
    assert_eq!(fills[1].maker_order_id, 2);
    assert_eq!(fills[1].price, Decimal::from(101));
    assert_eq!(fills[1].quantity, Decimal::from(5));
    assert_eq!(fills[2].maker_order_id, 3);
    assert_eq!(fills[2].price, Decimal::from(102));
    assert_eq!(fills[2].quantity, Decimal::from(2));
    assert_eq!(book.best_ask(), Some(Decimal::from(102)));
    assert_eq!(book.best_bid(), None);
}

#[test]
fn fixed_orderbook_test_price_time_priority() {
    let mut book = make_book();
    book.add_limit_order(1, Side::Sell, Decimal::from(100), Decimal::from(5))
        .unwrap();
    book.add_limit_order(2, Side::Sell, Decimal::from(100), Decimal::from(5))
        .unwrap();

    let fills = book
        .add_limit_order(3, Side::Buy, Decimal::from(100), Decimal::from(7))
        .unwrap();
    assert_eq!(fills.len(), 2);
    assert_eq!(fills[0].maker_order_id, 1);
    assert_eq!(fills[0].quantity, Decimal::from(5));
    assert_eq!(fills[1].maker_order_id, 2);
    assert_eq!(fills[1].quantity, Decimal::from(2));
}

#[test]
fn fixed_orderbook_test_no_match_buy_below_asks() {
    let mut book = make_book();
    book.add_limit_order(1, Side::Sell, Decimal::from(105), Decimal::from(10))
        .unwrap();
    let fills = book
        .add_limit_order(2, Side::Buy, Decimal::from(100), Decimal::from(10))
        .unwrap();
    assert!(fills.is_empty());
    assert_eq!(book.best_bid(), Some(Decimal::from(100)));
    assert_eq!(book.best_ask(), Some(Decimal::from(105)));
}

#[test]
fn fixed_orderbook_test_sell_matches_bids() {
    let mut book = make_book();
    book.add_limit_order(1, Side::Buy, Decimal::from(100), Decimal::from(10))
        .unwrap();
    let fills = book
        .add_limit_order(2, Side::Sell, Decimal::from(100), Decimal::from(10))
        .unwrap();
    assert_eq!(fills.len(), 1);
    assert_eq!(fills[0].maker_order_id, 1);
    assert_eq!(fills[0].taker_order_id, 2);
    assert_eq!(book.best_bid(), None);
    assert_eq!(book.best_ask(), None);
}

#[test]
fn fixed_orderbook_test_sell_sweeps_multiple_bid_levels() {
    let mut book = make_book();
    book.add_limit_order(1, Side::Buy, Decimal::from(102), Decimal::from(5))
        .unwrap();
    book.add_limit_order(2, Side::Buy, Decimal::from(101), Decimal::from(5))
        .unwrap();
    book.add_limit_order(3, Side::Buy, Decimal::from(100), Decimal::from(5))
        .unwrap();

    let fills = book
        .add_limit_order(4, Side::Sell, Decimal::from(100), Decimal::from(12))
        .unwrap();
    assert_eq!(fills.len(), 3);
    // Fills at highest bid first
    assert_eq!(fills[0].maker_order_id, 1);
    assert_eq!(fills[0].price, Decimal::from(102));
    assert_eq!(fills[1].maker_order_id, 2);
    assert_eq!(fills[1].price, Decimal::from(101));
    assert_eq!(fills[2].maker_order_id, 3);
    assert_eq!(fills[2].price, Decimal::from(100));
    assert_eq!(fills[2].quantity, Decimal::from(2));
}

#[test]
fn test_tombstone_skipping_during_match() {
    let mut book = make_book();
    book.add_limit_order(1, Side::Sell, Decimal::from(100), Decimal::from(5))
        .unwrap();
    book.add_limit_order(2, Side::Sell, Decimal::from(100), Decimal::from(5))
        .unwrap();
    book.add_limit_order(3, Side::Sell, Decimal::from(100), Decimal::from(5))
        .unwrap();

    // Cancel the middle order (creates tombstone in the ring)
    book.cancel_order(2).unwrap();

    let fills = book
        .add_limit_order(4, Side::Buy, Decimal::from(100), Decimal::from(8))
        .unwrap();
    assert_eq!(fills.len(), 2);
    assert_eq!(fills[0].maker_order_id, 1);
    assert_eq!(fills[0].quantity, Decimal::from(5));
    assert_eq!(fills[1].maker_order_id, 3);
    assert_eq!(fills[1].quantity, Decimal::from(3));
}

#[test]
fn fixed_orderbook_test_market_buy() {
    let mut book = make_book();
    book.add_limit_order(1, Side::Sell, Decimal::from(100), Decimal::from(10))
        .unwrap();
    book.add_limit_order(2, Side::Sell, Decimal::from(110), Decimal::from(10))
        .unwrap();

    let fills = book.add_market_order(3, Side::Buy, Decimal::from(15));
    assert_eq!(fills.len(), 2);
    assert_eq!(fills[0].price, Decimal::from(100));
    assert_eq!(fills[0].quantity, Decimal::from(10));
    assert_eq!(fills[1].price, Decimal::from(110));
    assert_eq!(fills[1].quantity, Decimal::from(5));
    assert_eq!(book.best_bid(), None);
}

#[test]
fn fixed_orderbook_test_market_sell() {
    let mut book = make_book();
    book.add_limit_order(1, Side::Buy, Decimal::from(100), Decimal::from(10))
        .unwrap();

    let fills = book.add_market_order(2, Side::Sell, Decimal::from(10));
    assert_eq!(fills.len(), 1);
    assert_eq!(fills[0].price, Decimal::from(100));
    assert_eq!(book.best_bid(), None);
}

#[test]
fn fixed_orderbook_test_market_order_insufficient_liquidity() {
    let mut book = make_book();
    book.add_limit_order(1, Side::Sell, Decimal::from(100), Decimal::from(5))
        .unwrap();

    let fills = book.add_market_order(2, Side::Buy, Decimal::from(10));
    assert_eq!(fills.len(), 1);
    assert_eq!(fills[0].quantity, Decimal::from(5));
    // Unfilled portion is discarded, not rested
    assert_eq!(book.best_bid(), None);
    assert_eq!(book.best_ask(), None);
}
