//! What a book with fixed capacity holds, and what each operation makes of it.
use crate::fixed_orderbook::FixedBookError;
use crate::grid::Grid;
use crate::levels::{
    beats, best_level, lemma_sweep_priced, levels_wf, trade_levels, trade_priced, LevelsOutcome,
};
use crate::matching::without;
use crate::orderbook::opposite;
use crate::ring_level::{any_live, live_only, MAX_SLOTS, Slot};
use crate::types::{Fill, OrderId, Price, Quantity, Side};
use vstd::prelude::*;

verus! {

/// Where an order rests: its side, its level, and its place there.
pub type Location = (Side, usize, u16);

/// The place of an order that was cancelled: a tombstone.
pub open spec fn tombstone(slots: Seq<Slot>, i: int) -> Seq<Slot> {
    slots.update(i, Slot { live: false, ..slots[i] })
}

/// A tombstone brings no order.
pub proof fn lemma_tombstone(slots: Seq<Slot>, i: int)
    requires
        0 <= i < slots.len(),
    ensures
        any_live(tombstone(slots, i)) ==> any_live(slots),
{
    if any_live(tombstone(slots, i)) {
        let k = choose|k: int| 0 <= k < slots.len() && (#[trigger] tombstone(slots, i)[k]).live;
        assert(slots[k].live);
    }
}

/// The last of the places that hold this id.
pub open spec fn last_place(slots: Seq<Slot>, id: OrderId) -> Option<int>
    decreases slots.len(),
{
    if slots.len() == 0 {
        None
    } else if slots.last().id == id {
        Some(slots.len() - 1)
    } else {
        last_place(slots.drop_last(), id)
    }
}

/// The index with the place of every order of a level renewed: an id that occurs twice there is
/// given the last place.
pub open spec fn renumbered(index: Map<OrderId, Location>, slots: Seq<Slot>) -> Map<
    OrderId,
    Location,
> {
    Map::new(
        |id: OrderId| index.contains_key(id),
        |id: OrderId|
            match last_place(slots, id) {
                Some(place) => (index[id].0, index[id].1, place as u16),
                None => index[id],
            },
    )
}

/// Whether no level has more orders than it has room for, nor more than can be named.
pub open spec fn levels_fit(levels: Seq<Seq<Slot>>, depth: int) -> bool {
    forall|i: int|
        0 <= i < levels.len() ==> (#[trigger] levels[i]).len() <= depth && levels[i].len()
            <= MAX_SLOTS
}

/// What a book holds: the taken places of each level of each side, lowest price first, and where
/// each order rests.
pub struct FixedState {
    pub bids: Seq<Seq<Slot>>,
    pub asks: Seq<Seq<Slot>>,
    pub index: Map<OrderId, Location>,
    /// The prices of the levels.
    pub grid: Grid,
    /// How many orders a level has room for.
    pub depth: usize,
}

impl FixedState {
    /// The levels of a side.
    pub open spec fn side(self, side: Side) -> Seq<Seq<Slot>> {
        match side {
            Side::Buy => self.bids,
            Side::Sell => self.asks,
        }
    }

    /// The book with other levels on a side.
    pub open spec fn with_side(self, side: Side, levels: Seq<Seq<Slot>>) -> FixedState {
        match side {
            Side::Buy => FixedState { bids: levels, ..self },
            Side::Sell => FixedState { asks: levels, ..self },
        }
    }

    /// A book without orders.
    pub open spec fn blank(grid: Grid, depth: usize) -> FixedState {
        let levels = Seq::new(grid.levels, |i: int| Seq::<Slot>::empty());
        FixedState { bids: levels, asks: levels, index: Map::empty(), grid, depth }
    }

    /// Each side has the levels of the grid, no level has more orders than it has room for, and
    /// every order that rests has something left to trade.
    pub open spec fn wf(self) -> bool {
        &&& self.grid.levels <= usize::MAX
        &&& self.bids.len() == self.grid.levels
        &&& self.asks.len() == self.grid.levels
        &&& levels_wf(self.bids)
        &&& levels_wf(self.asks)
        &&& levels_fit(self.bids, self.depth as int)
        &&& levels_fit(self.asks, self.depth as int)
    }

    /// Every level at which a bid rests is below every one at which an ask rests.
    pub open spec fn uncrossed(self) -> bool {
        forall|b: int, a: int|
            0 <= b < self.bids.len() && 0 <= a < self.asks.len() && any_live(
                #[trigger] self.bids[b],
            ) && any_live(#[trigger] self.asks[a]) ==> b < a
    }

    /// Whether an order rests at a location.
    pub open spec fn occupied(self, location: Location) -> bool {
        let levels = self.side(location.0);
        &&& location.1 < levels.len()
        &&& location.2 < levels[location.1 as int].len()
        &&& levels[location.1 as int][location.2 as int].live
    }

    /// The trades of an incoming order that accepts no worse level than `limit`.
    pub open spec fn trades(
        self,
        id: OrderId,
        side: Side,
        limit: int,
        qty: Quantity,
    ) -> LevelsOutcome {
        trade_levels(self.grid, opposite(side), self.side(opposite(side)), limit, id, qty)
    }

    /// Whether the price of each of those trades can be computed.
    pub open spec fn trades_priced(
        self,
        id: OrderId,
        side: Side,
        limit: int,
        qty: Quantity,
    ) -> bool {
        trade_priced(self.grid, opposite(side), self.side(opposite(side)), limit, id, qty)
    }

    /// The book after those trades: the orders that were filled whole are gone.
    pub open spec fn after_trades(
        self,
        id: OrderId,
        side: Side,
        limit: int,
        qty: Quantity,
    ) -> FixedState {
        let out = self.trades(id, side, limit, qty);
        FixedState {
            index: without(self.index, out.retired),
            ..self.with_side(opposite(side), out.levels)
        }
    }

    /// The level at which an order that is left over rests.
    pub open spec fn own_level(self, side: Side, price: Price) -> Seq<Slot> {
        match self.grid.place(price) {
            Some(level) => self.side(side)[level],
            None => seq![],
        }
    }

    /// Whether a limit order can be handled: no price overflows, a price that is refused can be
    /// answered with the range of the book, and the place of an order that rests can be named.
    pub open spec fn accepts_limit_order(
        self,
        id: OrderId,
        side: Side,
        price: Price,
        qty: Quantity,
    ) -> bool {
        &&& self.grid.placeable(price)
        &&& match self.grid.place(price) {
            Some(level) => {
                &&& self.trades_priced(id, side, level, qty)
                &&& self.trades(id, side, level, qty).remaining.units() > 0 ==> self.depth
                    <= MAX_SLOTS || self.own_level(side, price).len() < MAX_SLOTS
            },
            None => self.grid.levels > 0 && self.grid.priced(self.grid.levels - 1),
        }
    }

    /// The error that a price outside the book is answered with.
    pub open spec fn range_error(self, price: Price) -> FixedBookError {
        FixedBookError::PriceOutOfRange(
            price,
            self.grid.base,
            self.grid.price(self.grid.levels - 1),
        )
    }

    /// The answer to a limit order: its trades, or an error, where its price is not one of the
    /// book or where something is left of it and its level is full.
    pub open spec fn limit_order_reply(
        self,
        id: OrderId,
        side: Side,
        price: Price,
        qty: Quantity,
    ) -> Result<Seq<Fill>, FixedBookError> {
        match self.grid.place(price) {
            Some(level) => {
                let out = self.trades(id, side, level, qty);
                if out.remaining.units() > 0 && self.own_level(side, price).len() >= self.depth {
                    Err(FixedBookError::LevelFull(price, self.depth))
                } else {
                    Ok(out.fills)
                }
            },
            None => Err(self.range_error(price)),
        }
    }

    /// The book after a limit order: what the trades left of it rests at its level, where there
    /// is room.
    pub open spec fn after_limit_order(
        self,
        id: OrderId,
        side: Side,
        price: Price,
        qty: Quantity,
    ) -> FixedState {
        match self.grid.place(price) {
            Some(level) => {
                let remaining = self.trades(id, side, level, qty).remaining;
                let traded = self.after_trades(id, side, level, qty);
                let queue = self.own_level(side, price);
                if remaining.units() > 0 && queue.len() < self.depth {
                    FixedState {
                        index: traded.index.insert(
                            id,
                            (side, level as usize, queue.len() as u16),
                        ),
                        ..traded.with_side(
                            side,
                            traded.side(side).update(
                                level,
                                queue.push(Slot { id, quantity: remaining, live: true }),
                            ),
                        )
                    }
                } else {
                    traded
                }
            },
            None => self,
        }
    }

    /// The level that a market order accepts at worst.
    pub open spec fn market_limit(self, side: Side) -> int {
        match side {
            Side::Buy => self.grid.levels - 1,
            Side::Sell => 0,
        }
    }

    /// The book after an attempt to cancel this order.
    pub open spec fn after_cancel(self, id: OrderId) -> FixedState {
        if self.index.contains_key(id) {
            let (side, level, slot) = self.index[id];
            FixedState {
                index: self.index.remove(id),
                ..self.with_side(
                    side,
                    self.side(side).update(
                        level as int,
                        tombstone(self.side(side)[level as int], slot as int),
                    ),
                )
            }
        } else {
            self
        }
    }

    /// The book after a level was compacted: its tombstones are gone.
    pub open spec fn after_compaction(self, side: Side, level: int) -> FixedState {
        let kept = live_only(self.side(side)[level]);
        FixedState {
            index: renumbered(self.index, kept),
            ..self.with_side(side, self.side(side).update(level, kept))
        }
    }

    /// Where the price of every level can be computed, so can that of every trade.
    pub proof fn lemma_trades_priced(self, id: OrderId, side: Side, limit: int, qty: Quantity)
        requires
            self.wf(),
            forall|i: int| 0 <= i < self.grid.levels ==> #[trigger] self.grid.priced(i),
        ensures
            self.trades_priced(id, side, limit, qty),
    {
        let levels = self.side(opposite(side));
        if let Some(best) = best_level(opposite(side), levels) {
            lemma_sweep_priced(self.grid, opposite(side), levels, best, limit, id, qty);
        }
    }

    /// The price of the best level of a side, where there is one.
    pub open spec fn best_price(self, side: Side) -> Option<Price> {
        match best_level(side, self.side(side)) {
            Some(level) => Some(self.grid.price(level)),
            None => None,
        }
    }

    /// Whether that price can be computed.
    pub open spec fn best_priced(self, side: Side) -> bool {
        match best_level(side, self.side(side)) {
            Some(level) => self.grid.priced(level),
            None => true,
        }
    }
}

/// Fewer orders cross no more.
pub proof fn lemma_fewer_uncrossed(before: FixedState, after: FixedState)
    requires
        after.bids.len() == before.bids.len(),
        after.asks.len() == before.asks.len(),
        forall|i: int|
            0 <= i < after.bids.len() && any_live(#[trigger] after.bids[i]) ==> any_live(
                before.bids[i],
            ),
        forall|i: int|
            0 <= i < after.asks.len() && any_live(#[trigger] after.asks[i]) ==> any_live(
                before.asks[i],
            ),
    ensures
        before.uncrossed() ==> after.uncrossed(),
{
    if before.uncrossed() {
        assert forall|b: int, a: int|
            0 <= b < after.bids.len() && 0 <= a < after.asks.len() && any_live(
                #[trigger] after.bids[b],
            ) && any_live(#[trigger] after.asks[a]) implies b < a by {
            assert(any_live(before.bids[b]) && any_live(before.asks[a]));
        }
    }
}

/// An order that found no more to trade with rests without crossing the book.
pub proof fn lemma_push_keeps_uncrossed(
    before: FixedState,
    after: FixedState,
    side: Side,
    level: int,
)
    requires
        before.uncrossed(),
        before.bids.len() == before.asks.len(),
        after.side(opposite(side)) == before.side(opposite(side)),
        after.side(side).len() == before.side(side).len(),
        0 <= level < before.bids.len(),
        forall|i: int|
            0 <= i < before.side(side).len() && i != level ==> #[trigger] after.side(side)[i]
                == before.side(side)[i],
        forall|i: int|
            0 <= i < before.side(side).len() && any_live(
                #[trigger] before.side(opposite(side))[i],
            ) ==> beats(opposite(side), level, i),
    ensures
        after.uncrossed(),
{
    assert forall|b: int, a: int|
        0 <= b < after.bids.len() && 0 <= a < after.asks.len() && any_live(#[trigger] after.bids[b])
            && any_live(#[trigger] after.asks[a]) implies b < a by {
        let (own, other) = match side {
            Side::Buy => (b, a),
            Side::Sell => (a, b),
        };
        assert(any_live(before.side(opposite(side))[other]));
        if own != level {
            assert(after.side(side)[own] == before.side(side)[own]);
            assert(any_live(before.bids[b]) && any_live(before.asks[a]));
        }
    }
}

} // verus!
