//! A book that holds any number of orders at any price.
use crate::decimal::{
    lemma_of_signed, lemma_one_is_pow10, lemma_units_bound, Decimal, MAX_COEFFICIENT,
};
use crate::ladder::{
    ahead, best_price, better, first_price, ladder, ladder_wf, lemma_rank_order,
    lemma_sweep_shrinks, level_wf, price_rank, rank, remove, removed, rest, rested, rests_at,
    sweep, trade_with_side, LadderOutcome, Level, Levels, Rank,
};
use crate::matching::without;
use crate::order::Order;
use crate::types::{Fill, OrderId, Price, Quantity, Side};
use std::collections::BTreeMap;
use std::collections::HashMap;
use vstd::prelude::*;

verus! {

#[derive(Debug)]
pub enum OrderError {
    NotFound(OrderId),
}

/// What a book holds: the levels of each side, and the price at which each order was entered.
pub struct BookState {
    pub bids: Map<Rank, Level>,
    pub asks: Map<Rank, Level>,
    pub index: Map<OrderId, Price>,
}

/// The side that an order trades with.
pub open spec fn opposite(side: Side) -> Side {
    match side {
        Side::Buy => Side::Sell,
        Side::Sell => Side::Buy,
    }
}

impl BookState {
    /// The levels of a side.
    pub open spec fn side(self, side: Side) -> Map<Rank, Level> {
        match side {
            Side::Buy => self.bids,
            Side::Sell => self.asks,
        }
    }

    /// The book with other levels on a side.
    pub open spec fn with_side(self, side: Side, ladder: Map<Rank, Level>) -> BookState {
        match side {
            Side::Buy => BookState { bids: ladder, ..self },
            Side::Sell => BookState { asks: ladder, ..self },
        }
    }

    /// The trades of an incoming order that accepts no worse price than `price`.
    pub open spec fn trades(
        self,
        id: OrderId,
        side: Side,
        price: Price,
        qty: Quantity,
    ) -> LadderOutcome {
        sweep(self.side(opposite(side)), id, rank(opposite(side), price), qty)
    }

    /// The book after those trades: the orders that were filled whole are gone.
    pub open spec fn after_trades(
        self,
        id: OrderId,
        side: Side,
        price: Price,
        qty: Quantity,
    ) -> BookState {
        let out = self.trades(id, side, price, qty);
        BookState {
            index: without(self.index, out.retired),
            ..self.with_side(opposite(side), out.ladder)
        }
    }

    /// The book after a limit order: what the trades left of it rests at its price.
    pub open spec fn after_limit_order(
        self,
        id: OrderId,
        side: Side,
        price: Price,
        qty: Quantity,
    ) -> BookState {
        let remaining = self.trades(id, side, price, qty).remaining;
        let traded = self.after_trades(id, side, price, qty);
        if remaining.units() > 0 {
            let order = Order { id, price, quantity: remaining };
            BookState {
                index: traded.index.insert(id, price),
                ..traded.with_side(side, rested(side, traded.side(side), order))
            }
        } else {
            traded
        }
    }

    /// The price that a market order accepts at worst.
    pub open spec fn market_limit(side: Side) -> Price {
        match side {
            Side::Buy => Decimal::whole(MAX_COEFFICIENT as int),
            Side::Sell => Decimal::whole(0),
        }
    }

    /// Whether cancelling this order finds it: the index has it, and it rests at the price that
    /// the index gives.
    pub open spec fn can_cancel(self, id: OrderId) -> bool {
        self.index.contains_key(id) && (rests_at(self.bids, rank(Side::Buy, self.index[id]), id)
            || rests_at(self.asks, rank(Side::Sell, self.index[id]), id))
    }

    /// The book after an attempt to cancel this order. The bids are searched first.
    pub open spec fn after_cancel(self, id: OrderId) -> BookState {
        if self.index.contains_key(id) {
            let bid = rank(Side::Buy, self.index[id]);
            let ask = rank(Side::Sell, self.index[id]);
            BookState {
                bids: if rests_at(self.bids, bid, id) {
                    removed(self.bids, bid, id)
                } else {
                    self.bids
                },
                asks: if !rests_at(self.bids, bid, id) && rests_at(self.asks, ask, id) {
                    removed(self.asks, ask, id)
                } else {
                    self.asks
                },
                index: self.index.remove(id),
            }
        } else {
            self
        }
    }

    /// Each side is in order.
    pub open spec fn wf(self) -> bool {
        ladder_wf(Side::Buy, self.bids) && ladder_wf(Side::Sell, self.asks)
    }

    /// Every bid is below every ask.
    pub open spec fn uncrossed(self) -> bool {
        forall|b: Rank, a: Rank|
            #![trigger self.bids.contains_key(b), self.asks.contains_key(a)]
            self.bids.contains_key(b) && self.asks.contains_key(a) ==> self.bids[b].price.units()
                < self.asks[a].price.units()
    }
}

pub struct OrderBook {
    /// The levels of the buyers, highest price first.
    pub bids: Levels,
    /// The levels of the sellers, lowest price first.
    pub asks: Levels,
    /// The price at which each order was entered.
    pub order_index: HashMap<OrderId, Price>,
}

impl View for OrderBook {
    type V = BookState;

    open spec fn view(&self) -> BookState {
        BookState {
            bids: ladder(self.bids),
            asks: ladder(self.asks),
            index: self.order_index@,
        }
    }
}

impl OrderBook {
    /// A book without orders.
    pub fn new() -> (book: Self)
        ensures
            book@ == (BookState { bids: Map::empty(), asks: Map::empty(), index: Map::empty() }),
            book@.wf(),
            book@.uncrossed(),
    {
        let book = OrderBook {
            bids: BTreeMap::new(),
            asks: BTreeMap::new(),
            order_index: HashMap::new(),
        };
        assert(book@.bids =~= Map::empty());
        assert(book@.asks =~= Map::empty());
        book
    }

    /// Trades an order with the other side of the book as far as `price`; what is left of it
    /// rests at `price`. Returns the trades.
    pub fn add_limit_order(
        &mut self,
        id: OrderId,
        side: Side,
        price: Price,
        qty: Quantity,
    ) -> (fills: Vec<Fill>)
        requires
            old(self)@.wf(),
        ensures
            fills@ == old(self)@.trades(id, side, price, qty).fills,
            final(self)@ == old(self)@.after_limit_order(id, side, price, qty),
            final(self)@.wf(),
            old(self)@.uncrossed() ==> final(self)@.uncrossed(),
            old(self)@.trades(id, side, price, qty).remaining.units() > 0 ==> forall|other: Rank|
                #[trigger]
                final(self)@.side(opposite(side)).contains_key(other) ==> ahead(
                    rank(opposite(side), price),
                    other,
                ),
    {
        let (remaining, fills) = self.match_incoming(id, side, price, qty);
        let ghost traded = self@;
        if remaining.is_positive() {
            let order = Order { id, price, quantity: remaining };
            self.order_index.insert(id, price);
            match side {
                Side::Buy => rest(&mut self.bids, Side::Buy, order),
                Side::Sell => rest(&mut self.asks, Side::Sell, order),
            }
            proof {
                use_type_invariant(&price);
                if traded.uncrossed() {
                    lemma_rest_keeps_uncrossed(traded, self@, side, order);
                }
            }
        }
        fills
    }

    /// Trades an order with the other side of the book at whatever price there is, though a sale
    /// takes no bid below zero; what is left of it is dropped. Returns the trades.
    pub fn add_market_order(&mut self, id: OrderId, side: Side, qty: Quantity) -> (fills: Vec<Fill>)
        requires
            old(self)@.wf(),
        ensures
            fills@ == old(self)@.trades(id, side, BookState::market_limit(side), qty).fills,
            final(self)@ == old(self)@.after_trades(id, side, BookState::market_limit(side), qty),
            final(self)@.wf(),
            old(self)@.uncrossed() ==> final(self)@.uncrossed(),
            old(self)@.trades(id, side, BookState::market_limit(side), qty).remaining.units() > 0
                ==> match side {
                Side::Buy => final(self)@.asks == Map::<Rank, Level>::empty(),
                Side::Sell => forall|r: Rank| #[trigger]
                    final(self)@.bids.contains_key(r) ==> final(self)@.bids[r].price.units() < 0,
            },
    {
        let price = match side {
            Side::Buy => Decimal::max_value(),
            Side::Sell => Decimal::zero(),
        };
        let (remaining, fills) = self.match_incoming(id, side, price, qty);
        proof {
            let facing = opposite(side);
            let left = self@.side(facing);
            lemma_of_signed(0, 0);
            lemma_of_signed(MAX_COEFFICIENT as int, 0);
            lemma_one_is_pow10();
            assert forall|r: Rank| #[trigger] left.contains_key(r) && remaining.units()
                > 0 implies left[r].price.valid() && better(facing, price, left[r].price) by {
                assert(level_wf(left[r]));
                lemma_rank_order(facing, price, left[r].price);
            }
            if side == Side::Buy && remaining.units() > 0 {
                assert forall|r: Rank| !left.contains_key(r) by {
                    if left.contains_key(r) {
                        lemma_units_bound(left[r].price);
                    }
                }
                assert(left =~= Map::<Rank, Level>::empty());
            }
        }
        fills
    }

    /// Trades an order with the other side of the book as far as `price`. Returns what is left
    /// of it, and the trades.
    fn match_incoming(
        &mut self,
        id: OrderId,
        side: Side,
        price: Price,
        qty: Quantity,
    ) -> (r: (Quantity, Vec<Fill>))
        requires
            old(self)@.wf(),
        ensures
            r.0 == old(self)@.trades(id, side, price, qty).remaining,
            r.1@ == old(self)@.trades(id, side, price, qty).fills,
            final(self)@ == old(self)@.after_trades(id, side, price, qty),
            final(self)@.wf(),
            old(self)@.uncrossed() ==> final(self)@.uncrossed(),
            r.0.units() > 0 ==> forall|other: Rank| #[trigger]
                final(self)@.side(opposite(side)).contains_key(other) ==> ahead(
                    rank(opposite(side), price),
                    other,
                ),
    {
        proof {
            lemma_sweep_shrinks(
                self@.side(opposite(side)),
                id,
                rank(opposite(side), price),
                qty,
            );
        }
        match side {
            Side::Buy => trade_with_side(
                &mut self.asks,
                &mut self.order_index,
                id,
                price_rank(Side::Sell, price),
                qty,
                Ghost(Side::Sell),
            ),
            Side::Sell => trade_with_side(
                &mut self.bids,
                &mut self.order_index,
                id,
                price_rank(Side::Buy, price),
                qty,
                Ghost(Side::Buy),
            ),
        }
    }

    /// Takes an order out of the book.
    pub fn cancel_order(&mut self, id: OrderId) -> (r: Result<(), OrderError>)
        requires
            old(self)@.wf(),
        ensures
            match r {
                Ok(_) => old(self)@.can_cancel(id),
                Err(error) => !old(self)@.can_cancel(id) && error == OrderError::NotFound(id),
            },
            final(self)@ == old(self)@.after_cancel(id),
            final(self)@.wf(),
            old(self)@.uncrossed() ==> final(self)@.uncrossed(),
    {
        let price = match self.order_index.remove(&id) {
            Some(price) => price,
            None => {
                assert(self@.index =~= old(self)@.index);
                return Err(OrderError::NotFound(id));
            },
        };
        if remove(&mut self.bids, price_rank(Side::Buy, price), id, Ghost(Side::Buy)) {
            return Ok(());
        }
        if remove(&mut self.asks, price_rank(Side::Sell, price), id, Ghost(Side::Sell)) {
            return Ok(());
        }
        Err(OrderError::NotFound(id))
    }

    /// The highest price at which there is a bid. Levels without orders are passed over.
    pub fn best_bid(&self) -> (r: Option<Price>)
        ensures
            r == best_price(self@.bids),
    {
        first_price(&self.bids)
    }

    /// The lowest price at which there is an ask. Levels without orders are passed over.
    pub fn best_ask(&self) -> (r: Option<Price>)
        ensures
            r == best_price(self@.asks),
    {
        first_price(&self.asks)
    }

    /// The highest bid and the lowest ask, where there are both.
    pub fn spread(&self) -> (r: Option<(Price, Price)>)
        ensures
            r == (match (best_price(self@.bids), best_price(self@.asks)) {
                (Some(bid), Some(ask)) => Some((bid, ask)),
                _ => None,
            }),
    {
        let bid = self.best_bid()?;
        let ask = self.best_ask()?;
        Some((bid, ask))
    }
}

impl Default for OrderBook {
    fn default() -> (book: Self)
        ensures
            book@ == (BookState { bids: Map::empty(), asks: Map::empty(), index: Map::empty() }),
            book@.wf(),
            book@.uncrossed(),
    {
        OrderBook::new()
    }
}

/// An order that found no more to trade with rests without crossing the book.
pub proof fn lemma_rest_keeps_uncrossed(
    before: BookState,
    after: BookState,
    side: Side,
    order: Order,
)
    requires
        forall|s: Side, r: Rank| #[trigger]
            before.side(s).contains_key(r) ==> before.side(s)[r].price.valid() && r == rank(
                s,
                before.side(s)[r].price,
            ),
        order.price.valid(),
        after.side(side) == rested(side, before.side(side), order),
        after.side(opposite(side)) == before.side(opposite(side)),
        forall|other: Rank| #[trigger]
            before.side(opposite(side)).contains_key(other) ==> ahead(
                rank(opposite(side), order.price),
                other,
            ),
        before.uncrossed(),
    ensures
        after.uncrossed(),
{
    let r = rank(side, order.price);
    assert forall|b: Rank, a: Rank|
        #![trigger after.bids.contains_key(b), after.asks.contains_key(a)]
        after.bids.contains_key(b) && after.asks.contains_key(a) implies after.bids[b].price.units()
        < after.asks[a].price.units() by {
        let (own, other) = match side {
            Side::Buy => (b, a),
            Side::Sell => (a, b),
        };
        assert(before.side(opposite(side)).contains_key(other));
        let facing = before.side(opposite(side))[other].price;
        lemma_rank_order(opposite(side), order.price, facing);
        if own == r && before.side(side).contains_key(r) {
            lemma_rank_order(side, order.price, before.side(side)[r].price);
        } else if own != r {
            assert(before.side(side).contains_key(own));
        }
    }
}

} // verus!
