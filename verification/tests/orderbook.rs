use minimalist_order_book::decimal::Decimal;
use minimalist_order_book::orderbook::OrderBook;
use minimalist_order_book::types::{Fill, Side};

#[test]
fn orderbook_test_add_and_cancel_order() {
    let mut book = OrderBook::new();
    book.add_limit_order(1, Side::Buy, Decimal::from(100), Decimal::from(10));
    book.add_limit_order(2, Side::Sell, Decimal::from(105), Decimal::from(10));

    assert_eq!(book.best_bid(), Some(Decimal::from(100)));
    assert_eq!(book.best_ask(), Some(Decimal::from(105)));
    assert_eq!(
        book.spread(),
        Some((Decimal::from(100), Decimal::from(105)))
    );

    assert!(book.cancel_order(1).is_ok());
    assert_eq!(book.best_bid(), None);
    assert_eq!(book.spread(), None);

    assert!(book.cancel_order(2).is_ok());
    assert_eq!(book.best_ask(), None);
}

#[test]
fn orderbook_test_cancel_nonexistent_order() {
    let mut book = OrderBook::new();
    assert!(book.cancel_order(999).is_err());
}

#[test]
fn orderbook_test_best_bid_ask_ordering() {
    let mut book = OrderBook::new();
    book.add_limit_order(1, Side::Buy, Decimal::from(100), Decimal::from(10));
    book.add_limit_order(2, Side::Buy, Decimal::from(110), Decimal::from(10));
    book.add_limit_order(3, Side::Buy, Decimal::from(105), Decimal::from(10));
    assert_eq!(book.best_bid(), Some(Decimal::from(110)));

    book.add_limit_order(4, Side::Sell, Decimal::from(120), Decimal::from(10));
    book.add_limit_order(5, Side::Sell, Decimal::from(115), Decimal::from(10));
    book.add_limit_order(6, Side::Sell, Decimal::from(125), Decimal::from(10));
    assert_eq!(book.best_ask(), Some(Decimal::from(115)));
}

#[test]
fn orderbook_test_spread() {
    let mut book = OrderBook::new();
    assert_eq!(book.spread(), None);

    book.add_limit_order(1, Side::Buy, Decimal::from(100), Decimal::from(10));
    assert_eq!(book.spread(), None);

    book.add_limit_order(2, Side::Sell, Decimal::from(105), Decimal::from(10));
    assert_eq!(
        book.spread(),
        Some((Decimal::from(100), Decimal::from(105)))
    );

    book.add_limit_order(3, Side::Buy, Decimal::from(102), Decimal::from(10));
    book.add_limit_order(4, Side::Sell, Decimal::from(104), Decimal::from(10));
    assert_eq!(
        book.spread(),
        Some((Decimal::from(102), Decimal::from(104)))
    );

    book.add_limit_order(5, Side::Buy, Decimal::from(103), Decimal::from(10));
    assert_eq!(
        book.spread(),
        Some((Decimal::from(103), Decimal::from(104)))
    );
    book.cancel_order(5).unwrap();
    assert_eq!(
        book.spread(),
        Some((Decimal::from(102), Decimal::from(104)))
    );
}

#[test]
fn orderbook_test_exact_fill() {
    let mut book = OrderBook::new();
    book.add_limit_order(1, Side::Sell, Decimal::from(100), Decimal::from(10));
    let fills = book.add_limit_order(2, Side::Buy, Decimal::from(100), Decimal::from(10));
    assert_eq!(fills.len(), 1);
    assert_eq!(
        fills[0],
        Fill {
            maker_order_id: 1,
            taker_order_id: 2,
            price: Decimal::from(100),
            quantity: Decimal::from(10),
        }
    );
    assert_eq!(book.best_bid(), None);
    assert_eq!(book.best_ask(), None);
}

#[test]
fn orderbook_test_partial_fill_taker_remains() {
    let mut book = OrderBook::new();
    book.add_limit_order(1, Side::Sell, Decimal::from(100), Decimal::from(5));
    let fills = book.add_limit_order(2, Side::Buy, Decimal::from(100), Decimal::from(10));
    assert_eq!(fills.len(), 1);
    assert_eq!(fills[0].quantity, Decimal::from(5));
    assert_eq!(book.best_ask(), None);
    // 5 remaining rests as a bid
    assert_eq!(book.best_bid(), Some(Decimal::from(100)));
}

#[test]
fn orderbook_test_partial_fill_maker_remains() {
    let mut book = OrderBook::new();
    book.add_limit_order(1, Side::Sell, Decimal::from(100), Decimal::from(10));
    let fills = book.add_limit_order(2, Side::Buy, Decimal::from(100), Decimal::from(5));
    assert_eq!(fills.len(), 1);
    assert_eq!(fills[0].quantity, Decimal::from(5));
    // 5 remaining in the ask
    assert_eq!(book.best_ask(), Some(Decimal::from(100)));
    assert_eq!(book.best_bid(), None);
}

#[test]
fn orderbook_test_multi_level_sweep() {
    let mut book = OrderBook::new();
    book.add_limit_order(1, Side::Sell, Decimal::from(100), Decimal::from(5));
    book.add_limit_order(2, Side::Sell, Decimal::from(101), Decimal::from(5));
    book.add_limit_order(3, Side::Sell, Decimal::from(102), Decimal::from(5));

    let fills = book.add_limit_order(4, Side::Buy, Decimal::from(102), Decimal::from(12));
    assert_eq!(fills.len(), 3);
    assert_eq!(fills[0].maker_order_id, 1);
    assert_eq!(fills[0].price, Decimal::from(100));
    assert_eq!(fills[0].quantity, Decimal::from(5));
    assert_eq!(fills[1].maker_order_id, 2);
    assert_eq!(fills[1].price, Decimal::from(101));
    assert_eq!(fills[1].quantity, Decimal::from(5));
    assert_eq!(fills[2].maker_order_id, 3);
    assert_eq!(fills[2].price, Decimal::from(102));
    assert_eq!(fills[2].quantity, Decimal::from(2));
    // 3 remaining in ask at 102
    assert_eq!(book.best_ask(), Some(Decimal::from(102)));
    assert_eq!(book.best_bid(), None);
}

#[test]
fn orderbook_test_price_time_priority() {
    let mut book = OrderBook::new();
    book.add_limit_order(1, Side::Sell, Decimal::from(100), Decimal::from(5));
    book.add_limit_order(2, Side::Sell, Decimal::from(100), Decimal::from(5));

    let fills = book.add_limit_order(3, Side::Buy, Decimal::from(100), Decimal::from(7));
    assert_eq!(fills.len(), 2);
    // Order 1 was placed first, fills first (price-time priority)
    assert_eq!(fills[0].maker_order_id, 1);
    assert_eq!(fills[0].quantity, Decimal::from(5));
    assert_eq!(fills[1].maker_order_id, 2);
    assert_eq!(fills[1].quantity, Decimal::from(2));
}

#[test]
fn orderbook_test_no_match_buy_below_asks() {
    let mut book = OrderBook::new();
    book.add_limit_order(1, Side::Sell, Decimal::from(105), Decimal::from(10));
    let fills = book.add_limit_order(2, Side::Buy, Decimal::from(100), Decimal::from(10));
    assert!(fills.is_empty());
    assert_eq!(book.best_bid(), Some(Decimal::from(100)));
    assert_eq!(book.best_ask(), Some(Decimal::from(105)));
}

#[test]
fn orderbook_test_sell_matches_bids() {
    let mut book = OrderBook::new();
    book.add_limit_order(1, Side::Buy, Decimal::from(100), Decimal::from(10));
    let fills = book.add_limit_order(2, Side::Sell, Decimal::from(100), Decimal::from(10));
    assert_eq!(fills.len(), 1);
    assert_eq!(fills[0].maker_order_id, 1);
    assert_eq!(fills[0].taker_order_id, 2);
    assert_eq!(book.best_bid(), None);
    assert_eq!(book.best_ask(), None);
}

#[test]
fn orderbook_test_sell_sweeps_multiple_bid_levels() {
    let mut book = OrderBook::new();
    book.add_limit_order(1, Side::Buy, Decimal::from(102), Decimal::from(5));
    book.add_limit_order(2, Side::Buy, Decimal::from(101), Decimal::from(5));
    book.add_limit_order(3, Side::Buy, Decimal::from(100), Decimal::from(5));

    let fills = book.add_limit_order(4, Side::Sell, Decimal::from(100), Decimal::from(12));
    assert_eq!(fills.len(), 3);
    // Fills at highest bid first
    assert_eq!(fills[0].maker_order_id, 1);
    assert_eq!(fills[0].price, Decimal::from(102));
    assert_eq!(fills[1].maker_order_id, 2);
    assert_eq!(fills[1].price, Decimal::from(101));
    assert_eq!(fills[2].maker_order_id, 3);
    assert_eq!(fills[2].price, Decimal::from(100));
    assert_eq!(fills[2].quantity, Decimal::from(2));
}

#[test]
fn orderbook_test_market_buy() {
    let mut book = OrderBook::new();
    book.add_limit_order(1, Side::Sell, Decimal::from(100), Decimal::from(10));
    book.add_limit_order(2, Side::Sell, Decimal::from(200), Decimal::from(10));

    let fills = book.add_market_order(3, Side::Buy, Decimal::from(15));
    assert_eq!(fills.len(), 2);
    assert_eq!(fills[0].price, Decimal::from(100));
    assert_eq!(fills[0].quantity, Decimal::from(10));
    assert_eq!(fills[1].price, Decimal::from(200));
    assert_eq!(fills[1].quantity, Decimal::from(5));
    // Market order never rests
    assert_eq!(book.best_bid(), None);
}

#[test]
fn orderbook_test_market_sell() {
    let mut book = OrderBook::new();
    book.add_limit_order(1, Side::Buy, Decimal::from(100), Decimal::from(10));

    let fills = book.add_market_order(2, Side::Sell, Decimal::from(10));
    assert_eq!(fills.len(), 1);
    assert_eq!(fills[0].price, Decimal::from(100));
    assert_eq!(book.best_bid(), None);
}

#[test]
fn orderbook_test_market_order_insufficient_liquidity() {
    let mut book = OrderBook::new();
    book.add_limit_order(1, Side::Sell, Decimal::from(100), Decimal::from(5));

    let fills = book.add_market_order(2, Side::Buy, Decimal::from(10));
    assert_eq!(fills.len(), 1);
    assert_eq!(fills[0].quantity, Decimal::from(5));
    // Unfilled portion is discarded, not rested
    assert_eq!(book.best_bid(), None);
    assert_eq!(book.best_ask(), None);
}
