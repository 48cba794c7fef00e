//! Runs of calls: what holds of a book after any number of them.
use crate::agreement::{
    lemma_best_prices_agree, lemma_blank_books_agree, lemma_cancels_agree, lemma_compaction_agrees,
    lemma_limit_orders_agree, lemma_market_orders_agree, same_books, same_fills,
};
use crate::book_laws::{lemma_best_with_orders_exists, lemma_ladder_without_best};
use crate::fixed_amounts::lemma_levels_used_up;
use crate::fixed_book_laws::lemma_sweep_levels_places;
use crate::fixed_state::{
    lemma_fewer_uncrossed, lemma_push_keeps_uncrossed, lemma_tombstone, FixedState,
};
use crate::ladder::{
    ahead, best, best_price, is_best, is_best_with_orders, ladder_wf, lemma_one_best,
    lemma_sweep_shrinks, level_wf, rank, sweep, Level, Rank,
};
use crate::levels::{beats, best_level, is_best_level};
use crate::matching::{fill_queue, lemma_queue_used_up};
use crate::order::Order;
use crate::orderbook::{lemma_rest_keeps_uncrossed, opposite, BookState};
use crate::ring_level::{any_live, lemma_live_only, MAX_SLOTS};
use crate::types::{OrderId, Price, Quantity, Side};
use vstd::prelude::*;

verus! {

/// A call on a book.
pub enum Call {
    Limit { id: OrderId, side: Side, price: Price, qty: Quantity },
    Market { id: OrderId, side: Side, qty: Quantity },
    Cancel { id: OrderId },
    /// Compacts a level. A book without tombstones has nothing to do.
    Compact { side: Side, level: int },
}

impl FixedState {
    /// The book after a call, whether that was answered with an error or not.
    pub open spec fn after_call(self, call: Call) -> FixedState {
        match call {
            Call::Limit { id, side, price, qty } => self.after_limit_order(id, side, price, qty),
            Call::Market { id, side, qty } => self.after_trades(
                id,
                side,
                self.market_limit(side),
                qty,
            ),
            Call::Cancel { id } => self.after_cancel(id),
            Call::Compact { side, level } => self.after_compaction(side, level),
        }
    }

    /// Whether the id of a limit order is not in use and the place that it may take can be named,
    /// and whether there is the level that is to be compacted.
    pub open spec fn takes(self, call: Call) -> bool {
        match call {
            Call::Limit { id, side, price, .. } => {
                &&& !self.index.contains_key(id)
                &&& self.depth <= MAX_SLOTS || self.own_level(side, price).len() < MAX_SLOTS
            },
            Call::Compact { side, level } => 0 <= level < self.side(side).len(),
            _ => true,
        }
    }

    /// A trade keeps bids below asks. Where something is left of the order, every order that it
    /// could trade with is gone.
    pub proof fn lemma_trades_uncrossed(self, id: OrderId, side: Side, limit: int, qty: Quantity)
        requires
            self.uncrossed(),
        ensures
            ({
                let out = self.trades(id, side, limit, qty);
                &&& self.after_trades(id, side, limit, qty).uncrossed()
                &&& out.levels.len() == self.side(opposite(side)).len()
                &&& out.remaining.units() > 0 ==> forall|l: int|
                    0 <= l < out.levels.len() && any_live(#[trigger] out.levels[l]) ==> beats(
                        opposite(side),
                        limit,
                        l,
                    )
            }),
    {
        let facing = opposite(side);
        let levels = self.side(facing);
        let out = self.trades(id, side, limit, qty);
        let after = self.after_trades(id, side, limit, qty);
        match best_level(facing, levels) {
            Some(at) => {
                assert(is_best_level(facing, levels, at));
                lemma_sweep_levels_places(self.grid, facing, levels, at, limit, id, qty);
                lemma_levels_used_up(self.grid, facing, levels, at, limit, id, qty);
                assert forall|l: int|
                    0 <= l < levels.len() && any_live(#[trigger] out.levels[l]) implies any_live(
                    levels[l],
                ) by {
                    let i = choose|i: int|
                        0 <= i < out.levels[l].len() && (#[trigger] out.levels[l][i]).live;
                    assert(levels[l][i].live);
                }
            },
            None => {
                assert forall|l: int| 0 <= l < levels.len() implies !any_live(
                    #[trigger] levels[l],
                ) by {
                    if any_live(levels[l]) {
                        self.lemma_best_level_is_best(facing, l);
                    }
                }
            },
        }
        lemma_fewer_uncrossed(self, after);
    }

    /// A call leaves the index with the orders that rest, and bids below asks.
    pub proof fn lemma_call_keeps_order(self, call: Call)
        requires
            self.wf(),
            self.well_indexed(),
            self.uncrossed(),
            self.takes(call),
        ensures
            self.after_call(call).well_indexed(),
            self.after_call(call).uncrossed(),
            self.after_call(call).grid == self.grid,
            self.after_call(call).depth == self.depth,
    {
        let after = self.after_call(call);
        match call {
            Call::Limit { id, side, price, qty } => {
                self.lemma_limit_order_well_indexed(id, side, price, qty);
                if let Some(level) = self.grid.place(price) {
                    self.lemma_trades_uncrossed(id, side, level, qty);
                    let traded = self.after_trades(id, side, level, qty);
                    let left = self.trades(id, side, level, qty).remaining;
                    if left.units() > 0 && self.own_level(side, price).len() < self.depth {
                        lemma_push_keeps_uncrossed(traded, after, side, level);
                    }
                }
            },
            Call::Market { id, side, qty } => {
                self.lemma_trades_well_indexed(id, side, self.market_limit(side), qty);
                self.lemma_trades_uncrossed(id, side, self.market_limit(side), qty);
            },
            Call::Cancel { id } => {
                self.lemma_cancel_well_indexed(id);
                if self.index.contains_key(id) {
                    let (side, l, i) = self.index[id];
                    assert(self.has_order(side, l as int, i as int));
                    lemma_tombstone(self.side(side)[l as int], i as int);
                    lemma_fewer_uncrossed(self, after);
                }
            },
            Call::Compact { side, level } => {
                self.lemma_compaction_well_indexed(side, level);
                lemma_live_only(self.side(side)[level]);
                lemma_fewer_uncrossed(self, after);
            },
        }
    }
}

/// Whether these are the states that a book with fixed capacity goes through with these calls,
/// from a book without orders on: each well formed, as the calls leave it.
pub open spec fn fixed_run(states: Seq<FixedState>, calls: Seq<Call>) -> bool {
    &&& states.len() == calls.len() + 1
    &&& states[0] == FixedState::blank(states[0].grid, states[0].depth)
    &&& forall|k: int| 0 <= k < states.len() ==> (#[trigger] states[k]).wf()
    &&& forall|k: int|
        0 <= k < calls.len() ==> {
            &&& states[k].takes(#[trigger] calls[k])
            &&& states[k + 1] == states[k].after_call(calls[k])
        }
}

/// Whatever is done to a book: its index has the orders that rest and no others, each with the
/// place where it rests, and no bid reaches an ask. The best bid is below the best ask, where
/// neither of the two prices rounds.
pub proof fn lemma_fixed_run(states: Seq<FixedState>, calls: Seq<Call>, k: int)
    requires
        fixed_run(states, calls),
        0 <= k < states.len(),
    ensures
        states[k].well_indexed(),
        states[k].uncrossed(),
        states[k].grid == states[0].grid,
        states[k].depth == states[0].depth,
        states[k].best_prices_exact() ==> match (
            states[k].best_price(Side::Buy),
            states[k].best_price(Side::Sell),
        ) {
            (Some(bid), Some(ask)) => bid.units() < ask.units(),
            _ => true,
        },
    decreases k,
{
    if k == 0 {
        FixedState::lemma_blank_well_indexed(states[0].grid, states[0].depth);
        assert(states[0].uncrossed());
    } else {
        lemma_fixed_run(states, calls, k - 1);
        assert(states[k - 1].takes(calls[k - 1]));
        states[k - 1].lemma_call_keeps_order(calls[k - 1]);
    }
    if states[k].best_prices_exact() {
        states[k].lemma_best_prices_uncrossed();
    }
}

/// Something is left of the incoming quantity only once no level is there that the trade could
/// come to.
pub proof fn lemma_ladder_used_up(
    side: Side,
    ladder: Map<Rank, Level>,
    taker: OrderId,
    limit: Rank,
    quantity: Quantity,
)
    requires
        ladder_wf(side, ladder),
    ensures
        ({
            let out = sweep(ladder, taker, limit, quantity);
            out.remaining.units() > 0 ==> forall|r: Rank| #[trigger]
                out.ladder.contains_key(r) ==> ahead(limit, r)
        }),
    decreases ladder.dom().len(),
{
    let out = sweep(ladder, taker, limit, quantity);
    let first = best(ladder);
    if quantity.units() <= 0 {
    } else if !is_best(ladder, first) || ahead(limit, first) {
        assert forall|r: Rank| #[trigger] ladder.contains_key(r) implies ahead(limit, r) by {
            assert(level_wf(ladder[r]));
            lemma_best_with_orders_exists(ladder, r);
            let b = choose|b: Rank| is_best_with_orders(ladder, b);
            assert forall|x: Rank| #[trigger] ladder.contains_key(x) implies !ahead(x, b) by {
                assert(level_wf(ladder[x]));
            }
            lemma_one_best(ladder, b);
        }
    } else {
        let level = ladder[first];
        lemma_queue_used_up(level.orders, taker, level.price, quantity);
        let here = fill_queue(level.orders, taker, level.price, quantity);
        if here.queue.len() == 0 {
            let others = ladder.remove(first);
            lemma_ladder_without_best(side, ladder);
            lemma_ladder_used_up(side, others, taker, limit, here.remaining);
            let rest = sweep(others, taker, limit, here.remaining);
            assert(out.remaining == rest.remaining && out.ladder == rest.ladder);
        }
    }
}

impl BookState {
    /// The book after a call, whether that was answered with an error or not.
    pub open spec fn after_call(self, call: Call) -> BookState {
        match call {
            Call::Limit { id, side, price, qty } => self.after_limit_order(id, side, price, qty),
            Call::Market { id, side, qty } => self.after_trades(
                id,
                side,
                BookState::market_limit(side),
                qty,
            ),
            Call::Cancel { id } => self.after_cancel(id),
            Call::Compact { .. } => self,
        }
    }

    /// Whether the id of a limit order is not in use.
    pub open spec fn takes(self, call: Call) -> bool {
        match call {
            Call::Limit { id, price, .. } => price.valid() && !self.index.contains_key(id),
            _ => true,
        }
    }

    /// Fewer levels cross no more.
    proof fn lemma_fewer_levels(self, after: BookState)
        requires
            self.uncrossed(),
            forall|side: Side, r: Rank| #[trigger]
                after.side(side).contains_key(r) ==> self.side(side).contains_key(r) && after.side(
                    side,
                )[r].price == self.side(side)[r].price,
        ensures
            after.uncrossed(),
    {
        assert forall|b: Rank, a: Rank|
            #![trigger after.bids.contains_key(b), after.asks.contains_key(a)]
            after.bids.contains_key(b) && after.asks.contains_key(
                a,
            ) implies after.bids[b].price.units() < after.asks[a].price.units() by {
            assert(after.side(Side::Buy).contains_key(b));
            assert(after.side(Side::Sell).contains_key(a));
            assert(self.bids.contains_key(b) && self.asks.contains_key(a));
        }
    }

    /// A call leaves the index with the orders that rest, and bids below asks.
    pub proof fn lemma_call_keeps_order(self, call: Call)
        requires
            self.wf(),
            self.well_indexed(),
            self.uncrossed(),
            self.takes(call),
        ensures
            self.after_call(call).well_indexed(),
            self.after_call(call).uncrossed(),
    {
        let after = self.after_call(call);
        match call {
            Call::Limit { id, side, price, qty } => {
                let facing = opposite(side);
                let limit = rank(facing, price);
                let traded = self.after_trades(id, side, price, qty);
                let remaining = self.trades(id, side, price, qty).remaining;
                self.lemma_limit_order_well_indexed(id, side, price, qty);
                lemma_sweep_shrinks(self.side(facing), id, limit, qty);
                lemma_ladder_used_up(facing, self.side(facing), id, limit, qty);
                self.lemma_fewer_levels(traded);
                if remaining.units() > 0 {
                    let order = Order { id, price, quantity: remaining };
                    assert forall|s: Side, r: Rank| #[trigger]
                        traded.side(s).contains_key(r) implies traded.side(s)[r].price.valid() && r
                        == rank(s, traded.side(s)[r].price) by {
                        assert(self.side(s).contains_key(r));
                        assert(level_wf(self.side(s)[r]));
                    }
                    lemma_rest_keeps_uncrossed(traded, after, side, order);
                }
            },
            Call::Market { id, side, qty } => {
                let facing = opposite(side);
                let price = BookState::market_limit(side);
                self.lemma_trades_well_indexed(id, side, price, qty);
                lemma_sweep_shrinks(self.side(facing), id, rank(facing, price), qty);
                self.lemma_fewer_levels(after);
            },
            Call::Cancel { id } => {
                self.lemma_cancel_well_indexed(id);
                self.lemma_fewer_levels(after);
            },
            Call::Compact { .. } => {},
        }
    }
}

/// Whether these are the states that a book goes through with these calls, from a book without
/// orders on: each well formed, as the calls leave it.
pub open spec fn book_run(states: Seq<BookState>, calls: Seq<Call>) -> bool {
    &&& states.len() == calls.len() + 1
    &&& states[0] == BookState { bids: Map::empty(), asks: Map::empty(), index: Map::empty() }
    &&& forall|k: int| 0 <= k < states.len() ==> (#[trigger] states[k]).wf()
    &&& forall|k: int|
        0 <= k < calls.len() ==> {
            &&& states[k].takes(#[trigger] calls[k])
            &&& states[k + 1] == states[k].after_call(calls[k])
        }
}

/// Whatever is done to a book: its index has the orders that rest and no others, each with its
/// price, and every bid is below every ask.
pub proof fn lemma_book_run(states: Seq<BookState>, calls: Seq<Call>, k: int)
    requires
        book_run(states, calls),
        0 <= k < states.len(),
    ensures
        states[k].well_indexed(),
        states[k].uncrossed(),
    decreases k,
{
    if k == 0 {
        BookState::lemma_blank_well_indexed();
    } else {
        lemma_book_run(states, calls, k - 1);
        assert(states[k - 1].takes(calls[k - 1]));
        states[k - 1].lemma_call_keeps_order(calls[k - 1]);
    }
}

/// Whether a limit order is at the price of a level, without rounding, and is not turned away for
/// want of room. Of the other calls nothing is asked.
pub open spec fn on_grid(fixed: FixedState, call: Call) -> bool {
    match call {
        Call::Limit { id, side, price, qty } => {
            &&& fixed.grid.place(price) matches Some(level) && fixed.grid.exact(level)
                && price.units() == fixed.grid.price(level).units()
            &&& fixed.limit_order_reply(id, side, price, qty) is Ok
        },
        _ => true,
    }
}

/// Whether two books give the same answer to a call: the same trades, or that an order was found
/// to cancel.
pub open spec fn same_answers(fixed: FixedState, book: BookState, call: Call) -> bool {
    match call {
        Call::Limit { id, side, price, qty } => {
            let reply = fixed.limit_order_reply(id, side, price, qty);
            reply is Ok && same_fills(reply->Ok_0, book.trades(id, side, price, qty).fills)
        },
        Call::Market { id, side, qty } => same_fills(
            fixed.trades(id, side, fixed.market_limit(side), qty).fills,
            book.trades(id, side, BookState::market_limit(side), qty).fills,
        ),
        Call::Cancel { id } => fixed.index.contains_key(id) <==> book.can_cancel(id),
        Call::Compact { .. } => true,
    }
}

/// Whether two books have the same best price on a side, compared by value, or both have none.
pub open spec fn same_best_price(fixed: FixedState, book: BookState, side: Side) -> bool {
    match (fixed.best_price(side), best_price(book.side(side))) {
        (Some(p), Some(q)) => p.units() == q.units(),
        (None, None) => true,
        _ => false,
    }
}

/// The two books agree, whatever is done to both of them: they give the same answers, and have the
/// same best prices and the same orders after each call. Prices rise from level to level and are
/// not below zero, and limit orders are at the prices of levels that have room.
pub proof fn lemma_runs_agree(
    fixed: Seq<FixedState>,
    books: Seq<BookState>,
    calls: Seq<Call>,
    k: int,
)
    requires
        fixed_run(fixed, calls),
        book_run(books, calls),
        fixed[0].grid.tick.units() > 0,
        fixed[0].grid.base.units() >= 0,
        forall|i: int| 0 <= i < calls.len() ==> on_grid(fixed[i], #[trigger] calls[i]),
        0 <= k < fixed.len(),
    ensures
        same_books(fixed[k], books[k]),
        same_best_price(fixed[k], books[k], Side::Buy),
        same_best_price(fixed[k], books[k], Side::Sell),
        k < calls.len() ==> same_answers(fixed[k], books[k], calls[k]),
    decreases k,
{
    if k == 0 {
        lemma_blank_books_agree(fixed[0].grid, fixed[0].depth);
    } else {
        lemma_runs_agree(fixed, books, calls, k - 1);
        lemma_call_agrees(fixed, books, calls, k - 1);
    }
    lemma_best_prices_agree(fixed[k], books[k], Side::Buy);
    lemma_best_prices_agree(fixed[k], books[k], Side::Sell);
    if k < calls.len() {
        lemma_call_agrees(fixed, books, calls, k);
    }
}

/// Two books that hold the same orders before a call agree on it, and hold the same orders after
/// it.
proof fn lemma_call_agrees(
    fixed: Seq<FixedState>,
    books: Seq<BookState>,
    calls: Seq<Call>,
    k: int,
)
    requires
        fixed_run(fixed, calls),
        book_run(books, calls),
        fixed[0].grid.base.units() >= 0,
        0 <= k < calls.len(),
        on_grid(fixed[k], calls[k]),
        same_books(fixed[k], books[k]),
    ensures
        same_books(fixed[k + 1], books[k + 1]),
        same_answers(fixed[k], books[k], calls[k]),
{
    lemma_fixed_run(fixed, calls, k);
    lemma_book_run(books, calls, k);
    let (f, b) = (fixed[k], books[k]);
    assert(f.takes(calls[k]) && b.takes(calls[k]));
    match calls[k] {
        Call::Limit { id, side, price, qty } => {
            let level = f.grid.place(price)->0;
            lemma_limit_orders_agree(f, b, id, side, price, level, qty);
        },
        Call::Market { id, side, qty } => {
            lemma_market_orders_agree(f, b, id, side, qty);
        },
        Call::Cancel { id } => {
            lemma_cancels_agree(f, b, id);
        },
        Call::Compact { side, level } => {
            lemma_compaction_agrees(f, b, side, level);
        },
    }
}

} // verus!
