//! What holds of the book that takes any price, whatever is done to it.
use crate::decimal::MAX_SCALE;
use crate::ladder::{
    ahead, best, best_price, cost, is_best, is_best_with_orders, is_first_of, ladder_wf,
    lemma_one_best_with_orders, lemma_rank_order, level_wf, rank, removed, rested, rests_at,
    sweep, Level, Rank,
};
use crate::matching::{
    exact_steps, fill_queue, filled, grained, lemma_conservation, lemma_fill_queue_orderly,
    lemma_fill_queue_remaining, lemma_fills_positive, lemma_first_come_first_served,
    lemma_grained_is_exact, lemma_less_fills_concat, lemma_orderly_concat, lemma_without_nothing,
    less_fills, orderly,
};
use crate::order::Order;
use crate::orderbook::{opposite, BookState};
use crate::types::{OrderId, Price, Quantity, Side};
use vstd::prelude::*;

verus! {

/// How many orders of the level at rank `r` a trade has taken.
pub open spec fn taken_from(before: Map<Rank, Level>, after: Map<Rank, Level>, r: Rank) -> int {
    if after.contains_key(r) {
        before[r].orders.len() - after[r].orders.len()
    } else {
        before[r].orders.len() as int
    }
}

/// A level that was traded with stays well formed without the orders that went.
pub proof fn lemma_ladder_without_best(side: Side, ladder: Map<Rank, Level>)
    requires
        ladder_wf(side, ladder),
        is_best(ladder, best(ladder)),
    ensures
        ladder_wf(side, ladder.remove(best(ladder))),
        ladder.remove(best(ladder)).dom().len() < ladder.dom().len(),
{
    let rest = ladder.remove(best(ladder));
    assert forall|r: Rank| #[trigger] rest.contains_key(r) implies level_wf(rest[r]) && r == rank(
        side,
        rest[r].price,
    ) by {
        assert(ladder.contains_key(r));
    }
}

/// The trades with a side are orderly, and leave of the incoming quantity what they say.
pub proof fn lemma_sweep_orderly(
    side: Side,
    ladder: Map<Rank, Level>,
    taker: OrderId,
    limit: Rank,
    quantity: Quantity,
    resting: spec_fn(Quantity) -> bool,
)
    requires
        ladder_wf(side, ladder),
        forall|r: Rank, i: int|
            ladder.contains_key(r) && 0 <= i < ladder[r].orders.len() ==> resting(
                (#[trigger] ladder[r].orders[i]).quantity,
            ),
    ensures
        ({
            let out = sweep(ladder, taker, limit, quantity);
            &&& out.remaining == less_fills(quantity, out.fills)
            &&& orderly(quantity, out.fills, resting)
        }),
    decreases ladder.dom().len(),
{
    let first = best(ladder);
    if !(quantity.units() <= 0 || !is_best(ladder, first) || ahead(limit, first)) {
        let level = ladder[first];
        let here = fill_queue(level.orders, taker, level.price, quantity);
        assert(level_wf(level));
        lemma_fill_queue_orderly(level.orders, taker, level.price, quantity, resting);
        lemma_fill_queue_remaining(level.orders, taker, level.price, quantity);
        if here.queue.len() == 0 {
            let others = ladder.remove(first);
            let rest = sweep(others, taker, limit, here.remaining);
            lemma_ladder_without_best(side, ladder);
            assert forall|r: Rank, i: int|
                others.contains_key(r) && 0 <= i < others[r].orders.len() implies resting(
                (#[trigger] others[r].orders[i]).quantity,
            ) by {
                assert(ladder[r].orders[i] == others[r].orders[i]);
            }
            lemma_sweep_orderly(side, others, taker, limit, here.remaining, resting);
            lemma_less_fills_concat(quantity, here.fills, rest.fills);
            lemma_orderly_concat(quantity, here.fills, rest.fills, resting);
        }
    }
}

/// Best price first: each trade is at the price of a level that the limit reaches, prices get no
/// better from one trade to the next, and a level is traded with only once every better one is
/// used up. Levels that the limit does not reach stay as they are.
pub proof fn lemma_best_price_first(
    side: Side,
    ladder: Map<Rank, Level>,
    taker: OrderId,
    limit: Rank,
    quantity: Quantity,
)
    requires
        ladder_wf(side, ladder),
    ensures
        ({
            let out = sweep(ladder, taker, limit, quantity);
            &&& forall|i: int|
                0 <= i < out.fills.len() ==> {
                    let r = rank(side, (#[trigger] out.fills[i]).price);
                    &&& ladder.contains_key(r)
                    &&& out.fills[i].price == ladder[r].price
                    &&& !ahead(limit, r)
                }
            &&& forall|i: int, j: int|
                0 <= i < j < out.fills.len() ==> !ahead(
                    rank(side, (#[trigger] out.fills[j]).price),
                    rank(side, (#[trigger] out.fills[i]).price),
                )
            &&& forall|i: int, r: Rank|
                #![trigger out.fills[i], ladder.contains_key(r)]
                0 <= i < out.fills.len() && ladder.contains_key(r) && ahead(
                    r,
                    rank(side, out.fills[i].price),
                ) ==> !out.ladder.contains_key(r)
            &&& forall|r: Rank| #[trigger]
                ladder.contains_key(r) && ahead(limit, r) ==> out.ladder.contains_key(r)
                    && out.ladder[r] == ladder[r]
        }),
    decreases ladder.dom().len(),
{
    let out = sweep(ladder, taker, limit, quantity);
    let first = best(ladder);
    if !(quantity.units() <= 0 || !is_best(ladder, first) || ahead(limit, first)) {
        let level = ladder[first];
        let here = fill_queue(level.orders, taker, level.price, quantity);
        lemma_first_come_first_served(level.orders, taker, level.price, quantity);
        assert(rank(side, level.price) == first);
        if here.queue.len() == 0 {
            let others = ladder.remove(first);
            let rest = sweep(others, taker, limit, here.remaining);
            lemma_ladder_without_best(side, ladder);
            lemma_best_price_first(side, others, taker, limit, here.remaining);
            crate::ladder::lemma_sweep_shrinks(others, taker, limit, here.remaining);
            let n = here.fills.len() as int;
            assert(out.ladder == rest.ladder);
            assert forall|i: int| 0 <= i < out.fills.len() implies {
                let r = rank(side, (#[trigger] out.fills[i]).price);
                &&& ladder.contains_key(r)
                &&& out.fills[i].price == ladder[r].price
                &&& !ahead(limit, r)
            } by {
                if i < n {
                    assert(out.fills[i] == here.fills[i]);
                } else {
                    assert(out.fills[i] == rest.fills[i - n]);
                }
            }
            assert forall|i: int, j: int| 0 <= i < j < out.fills.len() implies !ahead(
                rank(side, (#[trigger] out.fills[j]).price),
                rank(side, (#[trigger] out.fills[i]).price),
            ) by {
                if i < n {
                    assert(out.fills[i] == here.fills[i]);
                    assert(ladder.contains_key(rank(side, out.fills[j].price)));
                } else {
                    assert(out.fills[i] == rest.fills[i - n]);
                    assert(out.fills[j] == rest.fills[j - n]);
                }
            }
            assert forall|i: int, r: Rank|
                #![trigger out.fills[i], ladder.contains_key(r)]
                0 <= i < out.fills.len() && ladder.contains_key(r) && ahead(
                    r,
                    rank(side, out.fills[i].price),
                ) implies !out.ladder.contains_key(r) by {
                if i < n {
                    assert(out.fills[i] == here.fills[i]);
                } else {
                    assert(out.fills[i] == rest.fills[i - n]);
                    if r == first {
                        if rest.ladder.contains_key(r) {
                            assert(others.contains_key(r));
                        }
                    } else {
                        assert(others.contains_key(r));
                    }
                }
            }
            assert forall|r: Rank| #[trigger]
                ladder.contains_key(r) && ahead(limit, r) implies out.ladder.contains_key(r)
                && out.ladder[r] == ladder[r] by {
                assert(others.contains_key(r));
            }
        }
    }
}

/// A trade takes orders from the front of levels and from nowhere else; the ids of the orders
/// that it takes are those that it retires.
pub proof fn lemma_sweep_takes_retired(
    ladder: Map<Rank, Level>,
    taker: OrderId,
    limit: Rank,
    quantity: Quantity,
)
    requires
        ladder.dom().finite(),
    ensures
        ({
            let out = sweep(ladder, taker, limit, quantity);
            &&& out.ladder.dom().subset_of(ladder.dom())
            &&& forall|r: Rank|
                out.ladder.contains_key(r) ==> 0 <= #[trigger] taken_from(ladder, out.ladder, r)
            &&& forall|r: Rank, i: int|
                out.ladder.contains_key(r) && 0 <= i < out.ladder[r].orders.len() ==> {
                    let k = taken_from(ladder, out.ladder, r);
                    &&& (#[trigger] out.ladder[r].orders[i]).id == ladder[r].orders[i + k].id
                    &&& out.ladder[r].orders[i].price == ladder[r].orders[i + k].price
                }
            &&& forall|r: Rank, i: int|
                ladder.contains_key(r) && 0 <= i < taken_from(ladder, out.ladder, r)
                    ==> out.retired.contains((#[trigger] ladder[r].orders[i]).id)
            &&& forall|id: OrderId| #[trigger]
                out.retired.contains(id) ==> exists|r: Rank, i: int|
                    ladder.contains_key(r) && 0 <= i < taken_from(ladder, out.ladder, r)
                        && (#[trigger] ladder[r].orders[i]).id == id
        }),
    decreases ladder.dom().len(),
{
    let out = sweep(ladder, taker, limit, quantity);
    let first = best(ladder);
    if !(quantity.units() <= 0 || !is_best(ladder, first) || ahead(limit, first)) {
        let level = ladder[first];
        let here = fill_queue(level.orders, taker, level.price, quantity);
        lemma_first_come_first_served(level.orders, taker, level.price, quantity);
        let k = here.retired.len() as int;
        if here.queue.len() == 0 {
            let others = ladder.remove(first);
            let rest = sweep(others, taker, limit, here.remaining);
            assert(others.dom().len() < ladder.dom().len());
            lemma_sweep_takes_retired(others, taker, limit, here.remaining);
            assert(out.ladder == rest.ladder);
            assert(k == level.orders.len());
            assert forall|r: Rank| out.ladder.contains_key(r) implies 0 <= #[trigger] taken_from(
                ladder,
                out.ladder,
                r,
            ) by {
                assert(others.contains_key(r));
                assert(taken_from(others, rest.ladder, r) >= 0);
            }
            assert(!out.ladder.contains_key(first)) by {
                if rest.ladder.dom().contains(first) {
                    assert(others.dom().contains(first));
                }
            }
            assert forall|r: Rank, i: int|
                out.ladder.contains_key(r) && 0 <= i < out.ladder[r].orders.len() implies {
                let k = taken_from(ladder, out.ladder, r);
                &&& (#[trigger] out.ladder[r].orders[i]).id == ladder[r].orders[i + k].id
                &&& out.ladder[r].orders[i].price == ladder[r].orders[i + k].price
            } by {
                assert(rest.ladder[r].orders[i].id == out.ladder[r].orders[i].id);
                assert(others[r] == ladder[r]);
            }
            assert forall|r: Rank, i: int|
                ladder.contains_key(r) && 0 <= i < taken_from(
                    ladder,
                    out.ladder,
                    r,
                ) implies out.retired.contains((#[trigger] ladder[r].orders[i]).id) by {
                if r == first {
                    assert(out.retired[i] == here.retired[i]);
                } else {
                    assert(others[r].orders[i] == ladder[r].orders[i]);
                    let id = others[r].orders[i].id;
                    assert(rest.retired.contains(id));
                    let m = choose|m: int| 0 <= m < rest.retired.len() && rest.retired[m] == id;
                    assert(out.retired[m + k] == id);
                }
            }
            assert forall|id: OrderId| #[trigger] out.retired.contains(id) implies exists|
                r: Rank,
                i: int,
            |
                ladder.contains_key(r) && 0 <= i < taken_from(ladder, out.ladder, r)
                    && (#[trigger] ladder[r].orders[i]).id == id by {
                let m = choose|m: int| 0 <= m < out.retired.len() && out.retired[m] == id;
                if m < k {
                    assert(ladder[first].orders[m].id == id);
                } else {
                    assert(rest.retired[m - k] == id);
                    assert(rest.retired.contains(id));
                    let (r, i) = choose|r: Rank, i: int|
                        others.contains_key(r) && 0 <= i < taken_from(others, rest.ladder, r)
                            && (#[trigger] others[r].orders[i]).id == id;
                    assert(ladder[r].orders[i].id == id);
                }
            }
        } else {
            assert(taken_from(ladder, out.ladder, first) == k);
            assert forall|r: Rank, i: int|
                out.ladder.contains_key(r) && 0 <= i < out.ladder[r].orders.len() implies {
                let k = taken_from(ladder, out.ladder, r);
                &&& (#[trigger] out.ladder[r].orders[i]).id == ladder[r].orders[i + k].id
                &&& out.ladder[r].orders[i].price == ladder[r].orders[i + k].price
            } by {
                if r == first {
                    assert(out.ladder[r].orders[i] == here.queue[i]);
                    assert(level.orders.skip(k)[i] == level.orders[i + k]);
                } else {
                    assert(out.ladder[r] == ladder[r]);
                }
            }
            assert forall|r: Rank, i: int|
                ladder.contains_key(r) && 0 <= i < taken_from(
                    ladder,
                    out.ladder,
                    r,
                ) implies out.retired.contains((#[trigger] ladder[r].orders[i]).id) by {
                assert(r == first);
                assert(out.retired[i] == here.retired[i]);
            }
            assert forall|id: OrderId| #[trigger] out.retired.contains(id) implies exists|
                r: Rank,
                i: int,
            |
                ladder.contains_key(r) && 0 <= i < taken_from(ladder, out.ladder, r)
                    && (#[trigger] ladder[r].orders[i]).id == id by {
                let m = choose|m: int| 0 <= m < out.retired.len() && out.retired[m] == id;
                assert(ladder[first].orders[m].id == id);
            }
        }
    }
}

impl BookState {
    /// Nothing is lost: where no subtraction rounds, what was traded of an order and what is left
    /// of it add up to what came in.
    pub proof fn lemma_trades_conserve(self, id: OrderId, side: Side, price: Price, qty: Quantity)
        requires
            self.wf(),
            qty.valid(),
            exact_steps(qty, self.trades(id, side, price, qty).fills),
        ensures
            ({
                let out = self.trades(id, side, price, qty);
                filled(out.fills) + out.remaining.units() == qty.units()
            }),
    {
        let facing = opposite(side);
        lemma_sweep_orderly(
            facing,
            self.side(facing),
            id,
            rank(facing, price),
            qty,
            |resting: Quantity| true,
        );
        lemma_conservation(qty, self.trades(id, side, price, qty).fills);
    }

    /// No subtraction rounds where the quantity that comes in and all those that rest can be
    /// written with the same number of decimal places.
    pub proof fn lemma_trades_exact(
        self,
        id: OrderId,
        side: Side,
        price: Price,
        qty: Quantity,
        places: nat,
    )
        requires
            self.wf(),
            places <= MAX_SCALE,
            grained(qty, places),
            forall|r: Rank, i: int|
                self.side(opposite(side)).contains_key(r) && 0 <= i < self.side(
                    opposite(side),
                )[r].orders.len() ==> grained(
                    (#[trigger] self.side(opposite(side))[r].orders[i]).quantity,
                    places,
                ),
        ensures
            exact_steps(qty, self.trades(id, side, price, qty).fills),
    {
        let facing = opposite(side);
        let resting = |resting: Quantity| grained(resting, places);
        lemma_sweep_orderly(facing, self.side(facing), id, rank(facing, price), qty, resting);
        lemma_grained_is_exact(qty, self.trades(id, side, price, qty).fills, places);
    }

    /// Every trade is for something.
    pub proof fn lemma_trades_positive(self, id: OrderId, side: Side, price: Price, qty: Quantity)
        requires
            self.wf(),
        ensures
            forall|i: int|
                0 <= i < self.trades(id, side, price, qty).fills.len() ==> (
                #[trigger] self.trades(id, side, price, qty).fills[i]).quantity.units() > 0,
    {
        let facing = opposite(side);
        let resting = |resting: Quantity| true;
        lemma_sweep_orderly(facing, self.side(facing), id, rank(facing, price), qty, resting);
        lemma_fills_positive(qty, self.trades(id, side, price, qty).fills, resting);
    }

    /// No order trades at a worse price than it asks for: a buyer pays no more, a seller gets no
    /// less.
    pub proof fn lemma_limit_respected(self, id: OrderId, side: Side, price: Price, qty: Quantity)
        requires
            self.wf(),
            price.valid(),
        ensures
            forall|i: int|
                0 <= i < self.trades(id, side, price, qty).fills.len() ==> match side {
                    Side::Buy => (#[trigger] self.trades(
                        id,
                        side,
                        price,
                        qty,
                    ).fills[i]).price.units() <= price.units(),
                    Side::Sell => self.trades(id, side, price, qty).fills[i].price.units()
                        >= price.units(),
                },
    {
        let facing = opposite(side);
        let fills = self.trades(id, side, price, qty).fills;
        lemma_best_price_first(facing, self.side(facing), id, rank(facing, price), qty);
        assert forall|i: int| 0 <= i < fills.len() implies match side {
            Side::Buy => (#[trigger] fills[i]).price.units() <= price.units(),
            Side::Sell => fills[i].price.units() >= price.units(),
        } by {
            assert(level_wf(self.side(facing)[rank(facing, fills[i].price)]));
            lemma_rank_order(facing, price, fills[i].price);
        }
    }

    /// The trades of an order come best price first: prices get no better from one to the next.
    pub proof fn lemma_trades_best_first(self, id: OrderId, side: Side, price: Price, qty: Quantity)
        requires
            self.wf(),
        ensures
            forall|i: int, j: int|
                0 <= i < j < self.trades(id, side, price, qty).fills.len() ==> cost(
                    opposite(side),
                    (#[trigger] self.trades(id, side, price, qty).fills[i]).price,
                ) <= cost(
                    opposite(side),
                    (#[trigger] self.trades(id, side, price, qty).fills[j]).price,
                ),
    {
        let facing = opposite(side);
        let fills = self.trades(id, side, price, qty).fills;
        lemma_best_price_first(facing, self.side(facing), id, rank(facing, price), qty);
        assert forall|i: int, j: int| 0 <= i < j < fills.len() implies cost(
            facing,
            (#[trigger] fills[i]).price,
        ) <= cost(facing, (#[trigger] fills[j]).price) by {
            assert(level_wf(self.side(facing)[rank(facing, fills[i].price)]));
            assert(level_wf(self.side(facing)[rank(facing, fills[j].price)]));
            lemma_rank_order(facing, fills[j].price, fills[i].price);
        }
    }

    /// A market order does not come to rest: its own side of the book stays as it is, and it is
    /// not entered in the index.
    pub proof fn lemma_market_order_never_rests(self, id: OrderId, side: Side, qty: Quantity)
        ensures
            ({
                let after = self.after_trades(id, side, BookState::market_limit(side), qty);
                &&& after.side(side) == self.side(side)
                &&& forall|other: OrderId| #[trigger]
                    after.index.contains_key(other) ==> self.index.contains_key(other)
            }),
    {
    }

    /// A cancelled order is gone: cancelling it again finds nothing, and changes nothing.
    pub proof fn lemma_cancelled_once(self, id: OrderId)
        ensures
            !self.after_cancel(id).can_cancel(id),
            self.after_cancel(id).after_cancel(id) == self.after_cancel(id),
    {
    }

    /// An order that trades with nothing and is cancelled leaves no trace, where its id was not in
    /// use.
    pub proof fn lemma_add_then_cancel(self, id: OrderId, side: Side, price: Price, qty: Quantity)
        requires
            self.wf(),
            qty.units() > 0,
            self.trades(id, side, price, qty).fills.len() == 0,
            !self.index.contains_key(id),
            !rests_at(self.bids, rank(Side::Buy, price), id),
            !rests_at(self.asks, rank(Side::Sell, price), id),
        ensures
            self.after_limit_order(id, side, price, qty).can_cancel(id),
            self.after_limit_order(id, side, price, qty).after_cancel(id) == self,
    {
        let facing = opposite(side);
        lemma_no_fills(facing, self.side(facing), id, rank(facing, price), qty);
        lemma_without_nothing(self.index);
        let order = Order { id, price, quantity: qty };
        let own = self.side(side);
        let r = rank(side, price);
        let added = self.after_limit_order(id, side, price, qty);
        assert(added.index == self.index.insert(id, price));
        assert(added.side(side) == rested(side, own, order));
        assert(added.side(facing) == self.side(facing));
        let queue = added.side(side)[r].orders;
        let last = queue.len() - 1;
        if own.contains_key(r) {
            assert forall|j: int| 0 <= j < last implies (#[trigger] queue[j]).id != id by {
                if queue[j].id == id {
                    lemma_first_exists(own[r].orders, id, j);
                }
            }
        }
        assert(is_first_of(queue, id, last));
        let i = choose|i: int| is_first_of(queue, id, i);
        assert(i == last);
        assert(rests_at(added.side(side), r, id));
        if own.contains_key(r) {
            assert(queue.remove(last) =~= own[r].orders);
            assert(level_wf(own[r]));
        }
        assert(removed(added.side(side), r, id) =~= own);
        let after = added.after_cancel(id);
        assert(after.index =~= self.index);
    }

    /// The highest bid and the lowest ask are what they are called: of the prices at which there
    /// are orders, none is better. Levels without orders may stand in between.
    pub proof fn lemma_best_prices(self, side: Side, r: Rank)
        requires
            self.side(side).dom().finite(),
            forall|other: Rank| #[trigger]
                self.side(side).contains_key(other) ==> self.side(side)[other].price.valid()
                    && other == rank(side, self.side(side)[other].price),
            self.side(side).contains_key(r),
            self.side(side)[r].orders.len() > 0,
        ensures
            best_price(self.side(side)) matches Some(price) && cost(side, price) <= cost(
                side,
                self.side(side)[r].price,
            ),
    {
        let ladder = self.side(side);
        lemma_best_with_orders_exists(ladder, r);
        let first = choose|first: Rank| is_best_with_orders(ladder, first);
        lemma_one_best_with_orders(ladder, first);
        lemma_rank_order(side, ladder[r].price, ladder[first].price);
    }
}

/// A ladder with an order has a best level with orders.
pub proof fn lemma_best_with_orders_exists(ladder: Map<Rank, Level>, r: Rank)
    requires
        ladder.dom().finite(),
        ladder.contains_key(r),
        ladder[r].orders.len() > 0,
    ensures
        exists|first: Rank| is_best_with_orders(ladder, first),
    decreases ladder.dom().len(),
{
    let others = ladder.remove(r);
    if exists|other: Rank| #[trigger]
        others.contains_key(other) && others[other].orders.len() > 0 {
        let other = choose|other: Rank| #[trigger]
            others.contains_key(other) && others[other].orders.len() > 0;
        lemma_best_with_orders_exists(others, other);
        let b = choose|b: Rank| is_best_with_orders(others, b);
        let first = if ahead(r, b) {
            r
        } else {
            b
        };
        assert forall|x: Rank| #[trigger]
            ladder.contains_key(x) && ladder[x].orders.len() > 0 implies !ahead(x, first) by {
            if x != r {
                assert(others.contains_key(x));
            }
        }
        assert(is_best_with_orders(ladder, first));
    } else {
        assert forall|x: Rank| #[trigger]
            ladder.contains_key(x) && ladder[x].orders.len() > 0 implies !ahead(x, r) by {
            if x != r {
                assert(others.contains_key(x));
            }
        }
        assert(is_best_with_orders(ladder, r));
    }
}

/// A trade with nothing changes nothing.
proof fn lemma_no_fills(
    side: Side,
    ladder: Map<Rank, Level>,
    taker: OrderId,
    limit: Rank,
    quantity: Quantity,
)
    requires
        ladder_wf(side, ladder),
        quantity.units() > 0,
        sweep(ladder, taker, limit, quantity).fills.len() == 0,
    ensures
        ({
            let out = sweep(ladder, taker, limit, quantity);
            out.ladder == ladder && out.retired == Seq::<OrderId>::empty() && out.remaining
                == quantity
        }),
{
    let first = best(ladder);
    if is_best(ladder, first) && !ahead(limit, first) {
        let level = ladder[first];
        assert(level_wf(level));
        let here = fill_queue(level.orders, taker, level.price, quantity);
        assert(here.fills.len() > 0);
    }
}

/// Where an id occurs in a queue, it has a first place there.
pub proof fn lemma_first_exists(queue: Seq<Order>, id: OrderId, j: int)
    requires
        0 <= j < queue.len(),
        queue[j].id == id,
    ensures
        exists|i: int| is_first_of(queue, id, i),
    decreases j,
{
    if !is_first_of(queue, id, j) {
        let k = choose|k: int| 0 <= k < j && (#[trigger] queue[k]).id == id;
        lemma_first_exists(queue, id, k);
    }
}

impl BookState {
    /// Whether there is an order at place `i` of the queue at rank `r`.
    pub open spec fn has_order(self, side: Side, r: Rank, i: int) -> bool {
        self.side(side).contains_key(r) && 0 <= i < self.side(side)[r].orders.len()
    }

    /// The order at place `i` of the queue at rank `r`.
    pub open spec fn order_at(self, side: Side, r: Rank, i: int) -> Order {
        self.side(side)[r].orders[i]
    }

    /// Whether an order with this id rests in the book.
    pub open spec fn resting(self, id: OrderId) -> bool {
        exists|side: Side, r: Rank, i: int| #[trigger]
            self.has_order(side, r, i) && self.order_at(side, r, i).id == id
    }

    /// No two orders share an id, and the index has the orders that rest and no others, each with
    /// its price.
    pub open spec fn well_indexed(self) -> bool {
        &&& forall|side: Side, r: Rank, i: int| #[trigger]
            self.has_order(side, r, i) ==> {
                let order = self.order_at(side, r, i);
                self.index.contains_key(order.id) && self.index[order.id].valid()
                    && self.index[order.id].units() == order.price.units()
            }
        &&& forall|id: OrderId| #[trigger] self.index.contains_key(id) ==> self.resting(id)
        &&& forall|s1: Side, r1: Rank, i1: int, s2: Side, r2: Rank, i2: int|
            #![trigger self.has_order(s1, r1, i1), self.has_order(s2, r2, i2)]
            self.has_order(s1, r1, i1) && self.has_order(s2, r2, i2) && self.order_at(
                s1,
                r1,
                i1,
            ).id == self.order_at(s2, r2, i2).id ==> s1 == s2 && r1 == r2 && i1 == i2
    }

    /// A book without orders has them all in its index.
    pub proof fn lemma_blank_well_indexed()
        ensures
            (BookState {
                bids: Map::empty(),
                asks: Map::empty(),
                index: Map::empty(),
            }).well_indexed(),
    {
    }

    /// The index follows trades: the orders that were filled whole leave it, and no others.
    pub proof fn lemma_trades_well_indexed(
        self,
        id: OrderId,
        side: Side,
        price: Price,
        qty: Quantity,
    )
        requires
            self.wf(),
            self.well_indexed(),
        ensures
            self.after_trades(id, side, price, qty).well_indexed(),
    {
        let facing = opposite(side);
        let before = self.side(facing);
        let out = self.trades(id, side, price, qty);
        let after = self.after_trades(id, side, price, qty);
        lemma_sweep_takes_retired(before, id, rank(facing, price), qty);
        // Where an order that stays was before.
        assert forall|s: Side, r: Rank, i: int| #[trigger] after.has_order(s, r, i) implies {
            let k = if s == facing {
                i + taken_from(before, out.ladder, r)
            } else {
                i
            };
            &&& self.has_order(s, r, k)
            &&& after.order_at(s, r, i).id == self.order_at(s, r, k).id
            &&& after.order_at(s, r, i).price == self.order_at(s, r, k).price
            &&& !out.retired.contains(after.order_at(s, r, i).id)
        } by {
            let k = if s == facing {
                i + taken_from(before, out.ladder, r)
            } else {
                i
            };
            if s == facing {
                assert(before.dom().contains(r));
                assert(taken_from(before, out.ladder, r) >= 0);
                assert(out.ladder[r].orders[i].id == before[r].orders[k].id);
            }
            assert(self.has_order(s, r, k));
            let order = after.order_at(s, r, i);
            if out.retired.contains(order.id) {
                let (r2, i2) = choose|r2: Rank, i2: int|
                    before.contains_key(r2) && 0 <= i2 < taken_from(before, out.ladder, r2)
                        && (#[trigger] before[r2].orders[i2]).id == order.id;
                lemma_taken_within(before, out.ladder, r2);
                assert(self.has_order(facing, r2, i2));
                assert(self.order_at(facing, r2, i2).id == self.order_at(s, r, k).id);
            }
        }
        assert forall|s: Side, r: Rank, i: int| #[trigger] after.has_order(s, r, i) implies {
            let order = after.order_at(s, r, i);
            after.index.contains_key(order.id) && after.index[order.id].valid()
                && after.index[order.id].units() == order.price.units()
        } by {
            let k = if s == facing {
                i + taken_from(before, out.ladder, r)
            } else {
                i
            };
            assert(self.has_order(s, r, k));
        }
        assert forall|x: OrderId| #[trigger] after.index.contains_key(x) implies after.resting(
            x,
        ) by {
            assert(self.index.contains_key(x));
            let (s, r, i) = choose|s: Side, r: Rank, i: int| #[trigger]
                self.has_order(s, r, i) && self.order_at(s, r, i).id == x;
            if s == facing {
                let k = taken_from(before, out.ladder, r);
                lemma_taken_within(before, out.ladder, r);
                if i < k {
                    assert(out.retired.contains(before[r].orders[i].id));
                }
                assert(out.ladder.contains_key(r));
                assert(out.ladder[r].orders[i - k].id == before[r].orders[i - k + k].id);
                assert(after.has_order(s, r, i - k));
            } else {
                assert(after.has_order(s, r, i));
            }
        }
        assert forall|s1: Side, r1: Rank, i1: int, s2: Side, r2: Rank, i2: int|
            #![trigger after.has_order(s1, r1, i1), after.has_order(s2, r2, i2)]
            after.has_order(s1, r1, i1) && after.has_order(s2, r2, i2) && after.order_at(
                s1,
                r1,
                i1,
            ).id == after.order_at(s2, r2, i2).id implies s1 == s2 && r1 == r2 && i1 == i2 by {
            let k1 = if s1 == facing {
                i1 + taken_from(before, out.ladder, r1)
            } else {
                i1
            };
            let k2 = if s2 == facing {
                i2 + taken_from(before, out.ladder, r2)
            } else {
                i2
            };
            assert(self.has_order(s1, r1, k1) && self.has_order(s2, r2, k2));
        }
    }

    /// The index follows a limit order with an id that is not in use: what is left of it is
    /// entered.
    pub proof fn lemma_limit_order_well_indexed(
        self,
        id: OrderId,
        side: Side,
        price: Price,
        qty: Quantity,
    )
        requires
            self.wf(),
            self.well_indexed(),
            price.valid(),
            !self.index.contains_key(id),
        ensures
            self.after_limit_order(id, side, price, qty).well_indexed(),
    {
        self.lemma_trades_well_indexed(id, side, price, qty);
        let traded = self.after_trades(id, side, price, qty);
        let remaining = self.trades(id, side, price, qty).remaining;
        let after = self.after_limit_order(id, side, price, qty);
        if remaining.units() > 0 {
            let order = Order { id, price, quantity: remaining };
            let r0 = rank(side, price);
            let own = traded.side(side);
            let place = if own.contains_key(r0) {
                own[r0].orders.len() as int
            } else {
                0
            };
            assert(!traded.index.contains_key(id));
            assert(after.has_order(side, r0, place) && after.order_at(side, r0, place) == order);
            assert forall|s: Side, r: Rank, i: int|
                after.has_order(s, r, i) && !(s == side && r == r0 && i == place) implies {
                &&& traded.has_order(s, r, i)
                &&& #[trigger] after.order_at(s, r, i) == traded.order_at(s, r, i)
            } by {}
            assert forall|s: Side, r: Rank, i: int| #[trigger] after.has_order(s, r, i) implies {
                let order = after.order_at(s, r, i);
                after.index.contains_key(order.id) && after.index[order.id].valid()
                    && after.index[order.id].units() == order.price.units()
            } by {
                if !(s == side && r == r0 && i == place) {
                    assert(after.order_at(s, r, i) == traded.order_at(s, r, i));
                }
            }
            assert forall|x: OrderId| #[trigger] after.index.contains_key(x) implies after.resting(
                x,
            ) by {
                if x != id {
                    assert(traded.index.contains_key(x));
                    let (s, r, i) = choose|s: Side, r: Rank, i: int| #[trigger]
                        traded.has_order(s, r, i) && traded.order_at(s, r, i).id == x;
                    assert(after.has_order(s, r, i) && after.order_at(s, r, i)
                        == traded.order_at(s, r, i));
                }
            }
            assert forall|s1: Side, r1: Rank, i1: int, s2: Side, r2: Rank, i2: int|
                #![trigger after.has_order(s1, r1, i1), after.has_order(s2, r2, i2)]
                after.has_order(s1, r1, i1) && after.has_order(s2, r2, i2) && after.order_at(
                    s1,
                    r1,
                    i1,
                ).id == after.order_at(s2, r2, i2).id implies s1 == s2 && r1 == r2 && i1 == i2 by {
                let new1 = s1 == side && r1 == r0 && i1 == place;
                let new2 = s2 == side && r2 == r0 && i2 == place;
                if !new1 {
                    assert(after.order_at(s1, r1, i1) == traded.order_at(s1, r1, i1));
                }
                if !new2 {
                    assert(after.order_at(s2, r2, i2) == traded.order_at(s2, r2, i2));
                }
            }
        }
    }

    /// An order can be cancelled exactly as long as it rests.
    pub proof fn lemma_can_cancel_resting(self, id: OrderId)
        requires
            self.wf(),
            self.well_indexed(),
        ensures
            self.can_cancel(id) <==> self.resting(id),
            self.can_cancel(id) <==> self.index.contains_key(id),
    {
        if self.index.contains_key(id) {
            let (s, r, i) = choose|s: Side, r: Rank, i: int| #[trigger]
                self.has_order(s, r, i) && self.order_at(s, r, i).id == id;
            self.lemma_found(id, s, r, i);
        }
    }

    /// An order rests at the rank that the index gives for it.
    pub proof fn lemma_found(self, id: OrderId, s: Side, r: Rank, i: int)
        requires
            self.wf(),
            self.well_indexed(),
            self.has_order(s, r, i),
            self.order_at(s, r, i).id == id,
        ensures
            self.index.contains_key(id),
            r == rank(s, self.index[id]),
            rests_at(self.side(s), r, id),
            is_first_of(self.side(s)[r].orders, id, i),
            forall|k: int| #[trigger] is_first_of(self.side(s)[r].orders, id, k) ==> k == i,
            !rests_at(self.side(opposite(s)), rank(opposite(s), self.index[id]), id),
    {
        let level = self.side(s)[r];
        assert(level_wf(level));
        lemma_rank_order(s, level.price, self.index[id]);
        assert forall|j: int| 0 <= j < i implies (#[trigger] level.orders[j]).id != id by {
            assert(self.has_order(s, r, j));
        }
        assert(is_first_of(level.orders, id, i));
        let o = opposite(s);
        let r2 = rank(o, self.index[id]);
        if rests_at(self.side(o), r2, id) {
            let k = choose|k: int| is_first_of(self.side(o)[r2].orders, id, k);
            assert(self.has_order(o, r2, k));
        }
    }

    /// The index follows a cancellation.
    pub proof fn lemma_cancel_well_indexed(self, id: OrderId)
        requires
            self.wf(),
            self.well_indexed(),
        ensures
            self.after_cancel(id).well_indexed(),
            !self.after_cancel(id).resting(id),
    {
        let after = self.after_cancel(id);
        if self.index.contains_key(id) {
            let (s0, r0, i0) = choose|s: Side, r: Rank, i: int| #[trigger]
                self.has_order(s, r, i) && self.order_at(s, r, i).id == id;
            self.lemma_found(id, s0, r0, i0);
            let queue = self.side(s0)[r0].orders;
            let first = choose|k: int| is_first_of(queue, id, k);
            assert(is_first_of(queue, id, i0));
            assert(first == i0);
            assert(after.side(s0) == removed(self.side(s0), r0, id));
            assert(after.side(opposite(s0)) == self.side(opposite(s0)));
            // Where an order that stays was before.
            assert forall|s: Side, r: Rank, i: int| #[trigger] after.has_order(s, r, i) implies {
                let k = if s == s0 && r == r0 && i >= i0 {
                    i + 1
                } else {
                    i
                };
                &&& self.has_order(s, r, k)
                &&& after.order_at(s, r, i) == self.order_at(s, r, k)
                &&& after.order_at(s, r, i).id != id
            } by {
                let k = if s == s0 && r == r0 && i >= i0 {
                    i + 1
                } else {
                    i
                };
                assert(s == s0 || s == opposite(s0));
                if s == s0 && r == r0 {
                    assert(after.side(s0)[r0].orders == queue.remove(i0));
                }
                assert(self.has_order(s, r, k));
                assert(after.order_at(s, r, i) == self.order_at(s, r, k));
            }
            assert forall|x: OrderId| #[trigger] after.index.contains_key(x) implies after.resting(
                x,
            ) by {
                assert(self.index.contains_key(x));
                let (s, r, i) = choose|s: Side, r: Rank, i: int| #[trigger]
                    self.has_order(s, r, i) && self.order_at(s, r, i).id == x;
                let k = if s == s0 && r == r0 && i > i0 {
                    i - 1
                } else {
                    i
                };
                assert(s == s0 || s == opposite(s0));
                if s == s0 && r == r0 {
                    assert(i != i0);
                    assert(queue.remove(i0).len() > 0);
                    assert(after.side(s0)[r0].orders == queue.remove(i0));
                    assert(queue.remove(i0)[k] == queue[i]);
                }
                assert(after.has_order(s, r, k));
                assert(after.order_at(s, r, k) == self.order_at(s, r, i));
            }
            assert forall|s1: Side, r1: Rank, i1: int, s2: Side, r2: Rank, i2: int|
                #![trigger after.has_order(s1, r1, i1), after.has_order(s2, r2, i2)]
                after.has_order(s1, r1, i1) && after.has_order(s2, r2, i2) && after.order_at(
                    s1,
                    r1,
                    i1,
                ).id == after.order_at(s2, r2, i2).id implies s1 == s2 && r1 == r2 && i1 == i2 by {
                let k1 = if s1 == s0 && r1 == r0 && i1 >= i0 {
                    i1 + 1
                } else {
                    i1
                };
                let k2 = if s2 == s0 && r2 == r0 && i2 >= i0 {
                    i2 + 1
                } else {
                    i2
                };
                assert(self.has_order(s1, r1, k1) && self.has_order(s2, r2, k2));
            }
        } else if self.resting(id) {
            let (s, r, i) = choose|s: Side, r: Rank, i: int| #[trigger]
                self.has_order(s, r, i) && self.order_at(s, r, i).id == id;
            assert(self.has_order(s, r, i));
        }
    }
}

/// A trade takes no more orders from a level than there are.
proof fn lemma_taken_within(before: Map<Rank, Level>, after: Map<Rank, Level>, r: Rank)
    ensures
        taken_from(before, after, r) <= before[r].orders.len(),
        !after.contains_key(r) ==> taken_from(before, after, r) == before[r].orders.len(),
{
}

} // verus!
