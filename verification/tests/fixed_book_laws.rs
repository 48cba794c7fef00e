use minimalist_order_book::decimal::Decimal;
use minimalist_order_book::fixed_orderbook::{FixedBookError, FixedBookSide, FixedOrderBook};
use minimalist_order_book::orderbook::OrderBook;
use minimalist_order_book::types::{Fill, OrderId, Side};

/// Prices 100, 100.5, 101 and so on to 103.5, with room for four orders at each.
fn small_book() -> FixedOrderBook<8, 4> {
    FixedOrderBook::<8, 4>::new(Decimal::from(100), Decimal::new(5, 1))
}

fn makers(fills: &[Fill]) -> Vec<OrderId> {
    fills.iter().map(|fill| fill.maker_order_id).collect()
}

#[test]
fn what_is_traded_and_what_is_left_add_up() {
    let mut book = small_book();
    book.add_limit_order(1, Side::Sell, Decimal::from(101), Decimal::new(125, 2)).unwrap();
    book.add_limit_order(2, Side::Sell, Decimal::new(1015, 1), Decimal::new(25, 1)).unwrap();
    let fills = book.add_limit_order(3, Side::Buy, Decimal::from(102), Decimal::from(5)).unwrap();
    assert_eq!(makers(&fills), vec![1, 2]);
    assert_eq!(fills[0].quantity, Decimal::new(125, 2));
    assert_eq!(fills[1].quantity, Decimal::new(25, 1));
    // 1.25 is left of the buyer's 5, and rests at 102.
    let fills = book.add_market_order(4, Side::Sell, Decimal::from(9));
    assert_eq!(makers(&fills), vec![3]);
    assert_eq!(fills[0].quantity, Decimal::new(125, 2));
    assert_eq!(fills[0].price, Decimal::from(102));
}

#[test]
fn levels_are_taken_best_first_and_no_further_than_the_limit() {
    let mut book = small_book();
    book.add_limit_order(1, Side::Buy, Decimal::from(103), Decimal::from(1)).unwrap();
    book.add_limit_order(2, Side::Buy, Decimal::from(101), Decimal::from(1)).unwrap();
    book.add_limit_order(3, Side::Buy, Decimal::new(1005, 1), Decimal::from(1)).unwrap();
    let fills = book.add_limit_order(4, Side::Sell, Decimal::from(101), Decimal::from(5)).unwrap();
    assert_eq!(makers(&fills), vec![1, 2]);
    assert_eq!(fills[0].price, Decimal::from(103));
    assert_eq!(fills[1].price, Decimal::from(101));
    assert_eq!(book.spread(), Some((Decimal::new(1005, 1), Decimal::from(101))));
}

#[test]
fn a_market_order_leaves_its_own_side_alone() {
    let mut book = small_book();
    book.add_limit_order(1, Side::Sell, Decimal::from(101), Decimal::from(1)).unwrap();
    let fills = book.add_market_order(2, Side::Buy, Decimal::from(5));
    assert_eq!(fills.len(), 1);
    assert_eq!(book.best_bid(), None);
    assert!(book.cancel_order(2).is_err());
}

#[test]
fn cancelling_frees_no_room_but_compaction_does() {
    let mut book = small_book();
    for id in 1..=4 {
        book.add_limit_order(id, Side::Buy, Decimal::from(101), Decimal::from(1)).unwrap();
    }
    book.cancel_order(2).unwrap();
    book.cancel_order(3).unwrap();
    assert!(matches!(
        book.add_limit_order(5, Side::Buy, Decimal::from(101), Decimal::from(1)),
        Err(FixedBookError::LevelFull(_, 4))
    ));
    book.compact_level(Side::Buy, 2);
    book.add_limit_order(5, Side::Buy, Decimal::from(101), Decimal::from(1)).unwrap();
    book.add_limit_order(6, Side::Buy, Decimal::from(101), Decimal::from(1)).unwrap();
    assert!(book.add_limit_order(7, Side::Buy, Decimal::from(101), Decimal::from(1)).is_err());
    // The orders that stayed come first, in the order in which they came.
    let fills = book.add_market_order(8, Side::Sell, Decimal::from(9));
    assert_eq!(makers(&fills), vec![1, 4, 5, 6]);
}

#[test]
fn compacting_twice_is_compacting_once() {
    let mut book = small_book();
    for id in 1..=4 {
        book.add_limit_order(id, Side::Sell, Decimal::from(102), Decimal::from(1)).unwrap();
    }
    book.cancel_order(1).unwrap();
    book.compact_level(Side::Sell, 4);
    book.compact_level(Side::Sell, 4);
    book.cancel_order(3).unwrap();
    let fills = book.add_market_order(8, Side::Buy, Decimal::from(9));
    assert_eq!(makers(&fills), vec![2, 4]);
}

#[test]
fn compacting_one_level_leaves_the_others_alone() {
    let mut book = small_book();
    book.add_limit_order(1, Side::Buy, Decimal::from(100), Decimal::from(1)).unwrap();
    book.add_limit_order(2, Side::Buy, Decimal::from(101), Decimal::from(1)).unwrap();
    book.add_limit_order(3, Side::Buy, Decimal::from(101), Decimal::from(1)).unwrap();
    book.cancel_order(2).unwrap();
    book.compact_level(Side::Buy, 2);
    book.compact_level(Side::Sell, 2);
    book.compact_level(Side::Buy, 7);
    assert_eq!(book.best_bid(), Some(Decimal::from(101)));
    book.cancel_order(3).unwrap();
    assert_eq!(book.best_bid(), Some(Decimal::from(100)));
    book.cancel_order(1).unwrap();
    assert_eq!(book.best_bid(), None);
}

#[test]
fn adding_and_cancelling_takes_a_place_and_nothing_else() {
    let mut book = small_book();
    book.add_limit_order(1, Side::Sell, Decimal::from(102), Decimal::from(1)).unwrap();
    book.add_limit_order(2, Side::Sell, Decimal::from(101), Decimal::from(1)).unwrap();
    book.cancel_order(2).unwrap();
    assert_eq!(book.best_ask(), Some(Decimal::from(102)));
    assert!(matches!(book.cancel_order(2), Err(FixedBookError::NotFound(2))));
    for id in 3..=5 {
        book.add_limit_order(id, Side::Sell, Decimal::from(101), Decimal::from(1)).unwrap();
    }
    assert!(book.add_limit_order(6, Side::Sell, Decimal::from(101), Decimal::from(1)).is_err());
}

#[test]
fn the_index_follows_orders_through_trades() {
    let mut book = small_book();
    book.add_limit_order(1, Side::Sell, Decimal::from(101), Decimal::from(2)).unwrap();
    book.add_limit_order(2, Side::Sell, Decimal::from(101), Decimal::from(2)).unwrap();
    book.add_limit_order(3, Side::Buy, Decimal::from(101), Decimal::from(3)).unwrap();
    assert!(matches!(book.cancel_order(1), Err(FixedBookError::NotFound(1))));
    assert!(matches!(book.cancel_order(3), Err(FixedBookError::NotFound(3))));
    assert!(book.cancel_order(2).is_ok());
    assert_eq!(book.best_ask(), None);
}

#[test]
fn the_fixed_book_never_crosses() {
    let mut book = FixedOrderBook::<16, 64>::new(Decimal::from(100), Decimal::from(1));
    for i in 0..60u64 {
        let side = if (i * 7) % 3 == 0 { Side::Buy } else { Side::Sell };
        let price = Decimal::from(100 + ((i * 13) % 11) as i64);
        book.add_limit_order(i, side, price, Decimal::from(1 + (i % 5) as i64)).unwrap();
        if i % 4 == 0 {
            let _ = book.cancel_order(i / 2);
        }
        if let Some((bid, ask)) = book.spread() {
            assert!(bid.mantissa() < ask.mantissa());
        }
    }
}

#[test]
fn tombstones_make_no_difference_to_trades() {
    let mut with = small_book();
    let mut without = small_book();
    for id in 1..=4 {
        with.add_limit_order(id, Side::Sell, Decimal::from(101), Decimal::from(id as i64)).unwrap();
        if id % 2 == 0 {
            without
                .add_limit_order(id, Side::Sell, Decimal::from(101), Decimal::from(id as i64))
                .unwrap();
        }
    }
    with.cancel_order(1).unwrap();
    with.cancel_order(3).unwrap();
    let a = with.add_limit_order(9, Side::Buy, Decimal::from(103), Decimal::from(5)).unwrap();
    let b = without.add_limit_order(9, Side::Buy, Decimal::from(103), Decimal::from(5)).unwrap();
    assert_eq!(a, b);
    assert_eq!(makers(&a), vec![2, 4]);
}

#[test]
fn a_price_outside_the_book_is_answered_with_its_range() {
    let mut book = small_book();
    match book.add_limit_order(1, Side::Buy, Decimal::new(995, 1), Decimal::from(1)) {
        Err(FixedBookError::PriceOutOfRange(price, first, last)) => {
            assert_eq!(price, Decimal::new(995, 1));
            assert_eq!(first, Decimal::from(100));
            assert_eq!(last, Decimal::new(1035, 1));
        }
        _ => panic!("the price is below the book"),
    }
    assert!(matches!(
        book.add_limit_order(2, Side::Sell, Decimal::from(104), Decimal::from(1)),
        Err(FixedBookError::PriceOutOfRange(_, _, _))
    ));
    assert_eq!(book.best_bid(), None);
    assert_eq!(book.best_ask(), None);
}

#[test]
fn a_full_level_is_answered_with_price_and_depth_and_trades_stand() {
    let mut book = FixedOrderBook::<4, 2>::new(Decimal::from(10), Decimal::from(1));
    book.add_limit_order(1, Side::Buy, Decimal::from(12), Decimal::from(1)).unwrap();
    book.add_limit_order(2, Side::Buy, Decimal::from(12), Decimal::from(1)).unwrap();
    book.cancel_order(1).unwrap();
    book.cancel_order(2).unwrap();
    book.add_limit_order(3, Side::Sell, Decimal::from(12), Decimal::from(5)).unwrap();
    match book.add_limit_order(4, Side::Buy, Decimal::from(12), Decimal::from(8)) {
        Err(FixedBookError::LevelFull(price, depth)) => {
            assert_eq!(price, Decimal::from(12));
            assert_eq!(depth, 2);
        }
        _ => panic!("the level is full of tombstones"),
    }
    assert_eq!(book.best_ask(), None);
    assert_eq!(book.best_bid(), None);
    assert!(matches!(book.cancel_order(3), Err(FixedBookError::NotFound(3))));
}

#[test]
fn the_price_of_a_level_is_found_at_that_level() {
    let base = Decimal::new(12345, 3);
    let tick = Decimal::new(25, 3);
    for level in 0..16i64 {
        let mut book = FixedOrderBook::<16, 1>::new(base, tick);
        let price = Decimal::new(12345 + 25 * level, 3);
        book.add_limit_order(1, Side::Buy, price, Decimal::from(1)).unwrap();
        assert_eq!(book.best_bid(), Some(price));
        let between = Decimal::new(12345 + 25 * level + 1, 3);
        assert!(book.add_limit_order(2, Side::Sell, between, Decimal::from(1)).is_err());
    }
}

#[test]
fn a_price_that_rounding_hides_is_taken_for_its_level() {
    let mut book = FixedOrderBook::<4, 2>::new(Decimal::zero(), Decimal::from(3));
    book.add_limit_order(1, Side::Buy, Decimal::new(1, 28), Decimal::from(1)).unwrap();
    assert_eq!(book.best_bid(), Some(Decimal::zero()));
    assert!(book.add_limit_order(2, Side::Buy, Decimal::from(1), Decimal::from(1)).is_err());
}

#[test]
fn a_first_price_of_minus_zero_is_never_met() {
    let minus_zero = Decimal::from_parts(true, 0, 0).unwrap();
    let mut book = FixedOrderBook::<4, 2>::new(minus_zero, Decimal::from(1));
    assert!(book.add_limit_order(1, Side::Buy, Decimal::zero(), Decimal::from(1)).is_err());
    assert!(book.add_limit_order(2, Side::Buy, Decimal::from(1), Decimal::from(1)).is_ok());
    let mut book = FixedOrderBook::<4, 2>::new(Decimal::zero(), Decimal::from(1));
    assert!(book.add_limit_order(1, Side::Buy, minus_zero, Decimal::from(1)).is_ok());
}

#[test]
fn a_falling_grid_takes_its_first_price_only() {
    let mut book = FixedOrderBook::<4, 2>::new(Decimal::from(10), Decimal::from(-1));
    assert!(book.add_limit_order(1, Side::Buy, Decimal::from(10), Decimal::from(1)).is_ok());
    match book.add_limit_order(2, Side::Buy, Decimal::from(12), Decimal::from(1)) {
        Err(FixedBookError::PriceOutOfRange(_, first, last)) => {
            assert_eq!(first, Decimal::from(10));
            assert_eq!(last, Decimal::from(7));
        }
        _ => panic!("the level would be negative"),
    }
}

#[test]
fn orders_are_refused_where_a_price_overflows() {
    let mut book = FixedOrderBook::<4, 2>::new(Decimal::max_value(), Decimal::from(1));
    assert!(!book.prices_fit());
    assert!(book
        .checked_limit_order(1, Side::Buy, Decimal::max_value(), Decimal::from(1))
        .is_none());
    assert!(book.checked_market_order(2, Side::Sell, Decimal::from(1)).is_none());
    assert_eq!(book.checked_spread(), None);
    // The first level has a price.
    book.add_limit_order(3, Side::Buy, Decimal::max_value(), Decimal::from(1)).unwrap();
    assert_eq!(book.best_bid(), Some(Decimal::max_value()));
}

#[test]
fn a_product_that_overflows_is_no_price() {
    let book = FixedOrderBook::<3, 2>::new(Decimal::zero(), Decimal::max_value());
    assert!(!book.prices_fit());
    let book = FixedOrderBook::<2, 2>::new(Decimal::zero(), Decimal::max_value());
    assert!(book.prices_fit());
}

#[test]
fn a_price_cannot_be_placed_where_its_distance_overflows() {
    let book = FixedOrderBook::<4, 2>::new(Decimal::from(-1), Decimal::from(1));
    assert!(!book.can_place(Decimal::max_value()));
    assert!(book.can_place(Decimal::from(7)));
    let book = FixedOrderBook::<4, 2>::new(Decimal::zero(), Decimal::new(1, 1));
    assert!(!book.can_place(Decimal::max_value()));
}

#[test]
fn a_grid_without_steps_places_only_what_is_below_it() {
    let book = FixedOrderBook::<4, 2>::new(Decimal::from(10), Decimal::zero());
    assert!(!book.can_place(Decimal::from(10)));
    assert!(book.can_place(Decimal::from(9)));
}

#[test]
fn checked_orders_do_what_the_others_do() {
    let mut book = small_book();
    assert!(book.prices_fit());
    let fills = book
        .checked_limit_order(1, Side::Sell, Decimal::from(101), Decimal::from(2))
        .unwrap()
        .unwrap();
    assert!(fills.is_empty());
    let fills = book
        .checked_limit_order(2, Side::Buy, Decimal::from(102), Decimal::from(3))
        .unwrap()
        .unwrap();
    assert_eq!(makers(&fills), vec![1]);
    assert!(book
        .checked_limit_order(3, Side::Buy, Decimal::from(99), Decimal::from(3))
        .unwrap()
        .is_err());
    assert_eq!(book.checked_spread(), Some(None));
    let fills = book.checked_market_order(4, Side::Sell, Decimal::from(3)).unwrap();
    assert_eq!(fills[0].quantity, Decimal::from(1));
    assert_eq!(fills[0].price, Decimal::from(102));
}

#[test]
fn a_repeated_id_names_the_order_that_came_last() {
    let mut book = small_book();
    book.add_limit_order(7, Side::Buy, Decimal::from(101), Decimal::from(1)).unwrap();
    book.add_limit_order(7, Side::Buy, Decimal::from(102), Decimal::from(2)).unwrap();
    book.cancel_order(7).unwrap();
    assert_eq!(book.best_bid(), Some(Decimal::from(101)));
    assert!(matches!(book.cancel_order(7), Err(FixedBookError::NotFound(7))));
    let fills = book.add_market_order(8, Side::Sell, Decimal::from(9));
    assert_eq!(fills[0].quantity, Decimal::from(1));
}

#[test]
fn a_side_knows_its_best_level() {
    let mut bids = FixedBookSide::<8, 2>::new(Side::Buy);
    assert_eq!(bids.best_level_idx(), None);
    assert_eq!(bids.push_at(3, 1, Decimal::from(1)), Some(0));
    assert_eq!(bids.push_at(5, 2, Decimal::from(1)), Some(0));
    assert_eq!(bids.push_at(5, 3, Decimal::from(1)), Some(1));
    assert_eq!(bids.push_at(5, 4, Decimal::from(1)), None);
    assert_eq!(bids.best_level_idx(), Some(5));
    bids.cancel_at(5, 0);
    assert_eq!(bids.best_level_idx(), Some(5));
    bids.cancel_at(5, 1);
    assert_eq!(bids.best_level_idx(), Some(3));

    let mut asks = FixedBookSide::<8, 2>::new(Side::Sell);
    asks.push_at(5, 1, Decimal::from(1));
    asks.push_at(3, 2, Decimal::from(1));
    assert_eq!(asks.best_level_idx(), Some(3));
    asks.cancel_at(3, 0);
    assert_eq!(asks.best_level_idx(), Some(5));
    asks.cancel_at(5, 0);
    assert_eq!(asks.best_level_idx(), None);
}

#[test]
fn a_sum_overflows_from_one_half_above_the_largest_number() {
    let book = FixedOrderBook::<2, 2>::new(Decimal::max_value(), Decimal::new(4, 1));
    assert!(book.prices_fit());
    let book = FixedOrderBook::<2, 2>::new(Decimal::max_value(), Decimal::new(5, 1));
    assert!(!book.prices_fit());
}

#[test]
fn a_product_is_rounded_to_fit() {
    // 2^96 - 1 with 28 decimal places, twice and four times.
    let tick = Decimal::from_parts(false, (1 << 96) - 1, 28).unwrap();
    let mut book = FixedOrderBook::<5, 2>::new(Decimal::zero(), tick);
    book.add_limit_order(1, Side::Buy, tick, Decimal::from(1)).unwrap();
    assert_eq!(book.best_bid(), Some(tick));
    match book.add_limit_order(2, Side::Buy, Decimal::from(-1), Decimal::from(1)) {
        Err(FixedBookError::PriceOutOfRange(_, _, last)) => {
            assert_eq!(last.mantissa(), 31_691_265_005_705_735_037_417_580_134);
            assert_eq!(last.scale(), 27);
        }
        _ => panic!("the price is below the book"),
    }
}

#[test]
fn the_two_books_agree() {
    let mut fixed = FixedOrderBook::<16, 64>::new(Decimal::from(100), Decimal::from(1));
    let mut book = OrderBook::new();
    for i in 0..80u64 {
        let side = if (i * 5) % 7 < 3 { Side::Buy } else { Side::Sell };
        let price = Decimal::from(100 + ((i * 11) % 16) as i64);
        let quantity = Decimal::new(1 + ((i * 17) % 23) as i64, 1);
        let fills = fixed.add_limit_order(i, side, price, quantity).unwrap();
        assert_eq!(fills, book.add_limit_order(i, side, price, quantity));
        if i % 3 == 0 {
            assert_eq!(fixed.cancel_order(i / 2).is_ok(), book.cancel_order(i / 2).is_ok());
        }
        assert_eq!(fixed.best_bid(), book.best_bid());
        assert_eq!(fixed.best_ask(), book.best_ask());
    }
}

#[test]
fn sums_and_products_drop_zeros_before_they_round() {
    let base = Decimal::from_parts(false, 7_000_000_000_000_000_000_000_000_000, 0).unwrap();
    let mut book = FixedOrderBook::<2, 2>::new(base, Decimal::new(100, 2));
    match book.add_limit_order(1, Side::Buy, Decimal::zero(), Decimal::from(1)) {
        Err(FixedBookError::PriceOutOfRange(_, _, last)) => {
            assert_eq!(last.mantissa(), 70_000_000_000_000_000_000_000_000_010);
            assert_eq!(last.scale(), 1);
        }
        _ => panic!("the price is below the book"),
    }
    let tick = Decimal::from_parts(false, 70_000_000_000_000_000_000_000_000_000, 2).unwrap();
    let mut book = FixedOrderBook::<11, 2>::new(Decimal::zero(), tick);
    match book.add_limit_order(1, Side::Buy, Decimal::from(-1), Decimal::from(1)) {
        Err(FixedBookError::PriceOutOfRange(_, _, last)) => {
            assert_eq!(last.mantissa(), 70_000_000_000_000_000_000_000_000_000);
            assert_eq!(last.scale(), 1);
        }
        _ => panic!("the price is below the book"),
    }
}

/// Asks of 1, 2 and 3 at 101, 102 and 103.5.
fn three_asks() -> FixedOrderBook<8, 4> {
    let mut book = small_book();
    book.add_limit_order(1, Side::Sell, Decimal::from(101), Decimal::from(1)).unwrap();
    book.add_limit_order(2, Side::Sell, Decimal::from(102), Decimal::from(2)).unwrap();
    book.add_limit_order(3, Side::Sell, Decimal::new(1035, 1), Decimal::from(3)).unwrap();
    book
}

#[test]
fn a_market_order_trades_as_a_limit_order_at_the_worst_price() {
    for quantity in [1, 2, 5, 6, 9] {
        let mut market = three_asks();
        let mut limit = three_asks();
        let fills = market.add_market_order(4, Side::Buy, Decimal::from(quantity));
        let same = limit
            .add_limit_order(4, Side::Buy, Decimal::new(1035, 1), Decimal::from(quantity))
            .unwrap();
        assert_eq!(fills, same);
        assert_eq!(market.best_ask(), limit.best_ask());
        assert_eq!(market.best_bid(), None);
        let traded: i128 = fills.iter().map(|fill| fill.quantity.mantissa()).sum();
        assert_eq!(traded, std::cmp::min(quantity as i128, 6));
    }
}

#[test]
fn compaction_does_not_show() {
    let mut compacted = small_book();
    let mut plain = small_book();
    for book in [&mut compacted, &mut plain] {
        for id in 1..=4 {
            book.add_limit_order(id, Side::Sell, Decimal::from(101), Decimal::from(2)).unwrap();
        }
        book.cancel_order(2).unwrap();
    }
    compacted.compact_level(Side::Sell, 2);
    assert_eq!(compacted.best_ask(), plain.best_ask());
    assert_eq!(
        compacted.add_market_order(5, Side::Buy, Decimal::from(3)),
        plain.add_market_order(5, Side::Buy, Decimal::from(3))
    );
    for id in 1..=5 {
        assert_eq!(compacted.cancel_order(id).is_ok(), plain.cancel_order(id).is_ok());
        assert_eq!(compacted.best_ask(), plain.best_ask());
    }
}

#[test]
fn the_books_agree_on_market_orders_too() {
    let mut fixed = FixedOrderBook::<16, 64>::new(Decimal::from(100), Decimal::from(1));
    let mut book = OrderBook::new();
    for i in 0..60u64 {
        let side = if (i * 3) % 5 < 2 { Side::Buy } else { Side::Sell };
        // The same price, written with one decimal place.
        let price = Decimal::new(1000 + 10 * ((i * 7) % 16) as i64, 1);
        let quantity = Decimal::new(1 + ((i * 13) % 19) as i64, 1);
        if i % 5 == 4 {
            assert_eq!(
                fixed.add_market_order(i, side, quantity),
                book.add_market_order(i, side, quantity)
            );
        } else {
            let fills = fixed.add_limit_order(i, side, price, quantity).unwrap();
            assert_eq!(fills, book.add_limit_order(i, side, price, quantity));
        }
        assert_eq!(fixed.spread(), book.spread());
    }
}

#[test]
fn the_books_agree_where_quantities_round() {
    let mut fixed = FixedOrderBook::<8, 4>::new(Decimal::from(100), Decimal::new(5, 1));
    let mut book = OrderBook::new();
    let all = Decimal::max_value();
    let orders = [
        (1, Side::Sell, Decimal::new(1005, 1), Decimal::new(4, 1)),
        (2, Side::Sell, Decimal::from(101), Decimal::new(3, 1)),
        // Nothing that 96 bits can hold is the difference of this and either of those.
        (3, Side::Buy, Decimal::from(101), all),
        (4, Side::Sell, Decimal::new(1005, 1), Decimal::new(6, 1)),
        (5, Side::Sell, Decimal::from(101), all),
    ];
    for (id, side, price, quantity) in orders {
        let fills = fixed.add_limit_order(id, side, price, quantity).unwrap();
        assert_eq!(fills, book.add_limit_order(id, side, price, quantity));
        assert_eq!(fixed.spread(), book.spread());
        assert_eq!(fixed.best_bid(), book.best_bid());
        assert_eq!(fixed.best_ask(), book.best_ask());
    }
    // What the rounding left of the seller, who came with no more than the buyer had at first.
    let fills = fixed.add_market_order(6, Side::Buy, all);
    assert_eq!(fills, book.add_market_order(6, Side::Buy, all));
    assert_eq!(fills.len(), 1);
    assert_eq!(fills[0].maker_order_id, 5);
    assert_eq!(fills[0].quantity, Decimal::from(1));
}

#[test]
fn the_books_agree_through_a_run_of_calls() {
    let mut fixed = FixedOrderBook::<8, 64>::new(Decimal::from(100), Decimal::new(5, 1));
    let mut book = OrderBook::new();
    for i in 0..60u64 {
        let side = if (i * 7) % 11 < 5 { Side::Buy } else { Side::Sell };
        let quantity = Decimal::new(1 + ((i * 29) % 31) as i64, 1);
        match i % 6 {
            3 => assert_eq!(
                fixed.add_market_order(i, side, quantity),
                book.add_market_order(i, side, quantity)
            ),
            4 => assert_eq!(fixed.cancel_order(i - 3).is_ok(), book.cancel_order(i - 3).is_ok()),
            5 => fixed.compact_level(side, (i % 8) as usize),
            _ => {
                let price = Decimal::new(1000 + 5 * ((i * 5) % 8) as i64, 1);
                let fills = fixed.add_limit_order(i, side, price, quantity).unwrap();
                assert_eq!(fills, book.add_limit_order(i, side, price, quantity));
            }
        }
        assert_eq!(fixed.spread(), book.spread());
        assert_eq!(fixed.best_bid(), book.best_bid());
        assert_eq!(fixed.best_ask(), book.best_ask());
    }
}

#[test]
fn prices_stay_in_order_where_those_of_other_levels_round() {
    // 2^96 - 1 with 28 decimal places: three times that has one digit too many.
    let tick = Decimal::from_parts(false, (1 << 96) - 1, 28).unwrap();
    let twice = Decimal::from_parts(false, 15_845_632_502_852_867_518_708_790_067, 27).unwrap();
    let mut book = FixedOrderBook::<4, 2>::new(Decimal::zero(), tick);
    book.add_limit_order(1, Side::Buy, tick, Decimal::from(1)).unwrap();
    book.add_limit_order(2, Side::Buy, Decimal::zero(), Decimal::from(1)).unwrap();
    book.add_limit_order(3, Side::Sell, twice, Decimal::from(1)).unwrap();
    assert_eq!(book.spread(), Some((tick, twice)));
    let fills = book.add_limit_order(4, Side::Sell, Decimal::zero(), Decimal::from(3)).unwrap();
    assert_eq!(makers(&fills), vec![1, 2]);
    assert_eq!(fills[0].price, tick);
    assert_eq!(fills[1].price, Decimal::zero());
    assert_eq!(book.best_ask(), Some(Decimal::zero()));
}
