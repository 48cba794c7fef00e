//! What rests on a side of a book with fixed capacity, and what trades take from it.
use crate::amounts::{
    amount, filled_of, lemma_amount_not_negative, lemma_filled_all, lemma_filled_of_concat,
    lemma_grained_makers, lemma_left_positive, lemma_makers_conserve, makers_exact,
};
use crate::decimal::{lemma_difference_exact, MAX_SCALE};
use crate::fixed_book_laws::{lemma_slots_used_up, lemma_tombstones_make_no_difference, orders_of};
use crate::fixed_state::FixedState;
use crate::grid::Grid;
use crate::levels::{
    beats, best_level, is_best_level, levels_wf, next_level, no_orders, sweep_levels,
};
use crate::matching::{
    exact_steps, fill_queue, filled, grained, lemma_conservation, less_fills, orderly,
};
use crate::order::Order;
use crate::orderbook::opposite;
use crate::ring_level::{any_live, lemma_live_only, live_only, Slot};
use crate::slots::{fill_slots, slots_wf};
use crate::types::{Fill, OrderId, Price, Quantity, Side};
use vstd::prelude::*;

verus! {

/// The orders of a level.
pub open spec fn level_orders(grid: Grid, levels: Seq<Seq<Slot>>, l: int) -> Seq<Order> {
    orders_of(levels[l], grid.price(l))
}

/// The sum of the quantities of those orders of a side that `pick` picks, in units of `10^-28`.
pub open spec fn levels_amount(
    grid: Grid,
    levels: Seq<Seq<Slot>>,
    pick: spec_fn(OrderId, Price) -> bool,
) -> int
    decreases levels.len(),
{
    if levels.len() == 0 {
        0
    } else {
        levels_amount(grid, levels.drop_last(), pick) + amount(
            orders_of(levels.last(), grid.price(levels.len() - 1)),
            grid.price(levels.len() - 1),
            pick,
        )
    }
}

/// Whether taking a trade from the order that is filled in part, if any, does not round, at each
/// level that a trade with a side comes to.
pub open spec fn levels_makers_exact(
    grid: Grid,
    side: Side,
    levels: Seq<Seq<Slot>>,
    at: int,
    limit: int,
    taker: OrderId,
    quantity: Quantity,
) -> bool
    decreases
            (match side {
                Side::Buy => at + 1,
                Side::Sell => levels.len() - at,
            }),
{
    if quantity.units() <= 0 || !(0 <= at < levels.len()) || beats(side, limit, at) {
        true
    } else {
        let here = fill_slots(levels[at], 0, taker, grid.price(at), quantity);
        &&& makers_exact(level_orders(grid, levels, at), taker, grid.price(at), quantity)
        &&& levels_makers_exact(
            grid,
            side,
            levels.update(at, here.slots),
            next_level(side, at),
            limit,
            taker,
            here.remaining,
        )
    }
}

/// Every order of a side is for something.
pub open spec fn orders_positive(grid: Grid, levels: Seq<Seq<Slot>>) -> bool {
    forall|l: int, i: int|
        0 <= l < levels.len() && 0 <= i < level_orders(grid, levels, l).len() ==> {
            &&& (#[trigger] level_orders(grid, levels, l)[i]).quantity.valid()
            &&& level_orders(grid, levels, l)[i].quantity.units() > 0
        }
}

/// A side whose places are well formed has orders that are for something.
pub proof fn lemma_orders_positive(grid: Grid, levels: Seq<Seq<Slot>>)
    requires
        forall|l: int| 0 <= l < levels.len() ==> slots_wf(#[trigger] levels[l]),
    ensures
        orders_positive(grid, levels),
{
    assert forall|l: int, i: int|
        0 <= l < levels.len() && 0 <= i < level_orders(grid, levels, l).len() implies {
        &&& (#[trigger] level_orders(grid, levels, l)[i]).quantity.valid()
        &&& level_orders(grid, levels, l)[i].quantity.units() > 0
    } by {
        let slots = levels[l];
        assert(slots_wf(slots));
        lemma_live_only(slots);
        let slot = live_only(slots)[i];
        assert(slot.live);
        let k = choose|k: int| 0 <= k < slots.len() && slots[k] == slot;
        assert(slots[k].live);
    }
}

/// Changing one level changes what a side holds by what that level holds.
proof fn lemma_amount_update(
    grid: Grid,
    levels: Seq<Seq<Slot>>,
    at: int,
    slots: Seq<Slot>,
    pick: spec_fn(OrderId, Price) -> bool,
)
    requires
        0 <= at < levels.len(),
    ensures
        levels_amount(grid, levels.update(at, slots), pick) + amount(
            orders_of(levels[at], grid.price(at)),
            grid.price(at),
            pick,
        ) == levels_amount(grid, levels, pick) + amount(
            orders_of(slots, grid.price(at)),
            grid.price(at),
            pick,
        ),
    decreases levels.len(),
{
    let after = levels.update(at, slots);
    if at == levels.len() - 1 {
        assert(after.drop_last() =~= levels.drop_last());
    } else {
        lemma_amount_update(grid, levels.drop_last(), at, slots, pick);
        assert(after.drop_last() =~= levels.drop_last().update(at, slots));
        assert(after.last() == levels.last());
    }
}

/// What a side holds is not below zero.
proof fn lemma_levels_amount_not_negative(
    grid: Grid,
    levels: Seq<Seq<Slot>>,
    pick: spec_fn(OrderId, Price) -> bool,
)
    requires
        orders_positive(grid, levels),
    ensures
        levels_amount(grid, levels, pick) >= 0,
    decreases levels.len(),
{
    if levels.len() > 0 {
        let shorter = levels.drop_last();
        let last = levels.len() - 1;
        assert forall|l: int, i: int|
            0 <= l < shorter.len() && 0 <= i < level_orders(grid, shorter, l).len() implies {
            &&& (#[trigger] level_orders(grid, shorter, l)[i]).quantity.valid()
            &&& level_orders(grid, shorter, l)[i].quantity.units() > 0
        } by {
            assert(level_orders(grid, shorter, l)[i] == level_orders(grid, levels, l)[i]);
        }
        lemma_levels_amount_not_negative(grid, shorter, pick);
        let orders = orders_of(levels.last(), grid.price(last));
        assert forall|i: int| 0 <= i < orders.len() implies (#[trigger] orders[i]).quantity.units()
            > 0 by {
            assert(orders[i] == level_orders(grid, levels, last)[i]);
        }
        lemma_amount_not_negative(orders, grid.price(last), pick);
    }
}

/// A side without orders holds nothing.
proof fn lemma_no_orders_amount(
    grid: Grid,
    levels: Seq<Seq<Slot>>,
    pick: spec_fn(OrderId, Price) -> bool,
)
    requires
        no_orders(levels),
    ensures
        levels_amount(grid, levels, pick) == 0,
    decreases levels.len(),
{
    if levels.len() > 0 {
        let shorter = levels.drop_last();
        let last = levels.last();
        assert forall|l: int| 0 <= l < shorter.len() implies !any_live(#[trigger] shorter[l]) by {
            assert(!any_live(levels[l]));
        }
        lemma_no_orders_amount(grid, shorter, pick);
        assert(!any_live(levels[levels.len() - 1]));
        lemma_live_only(last);
        if live_only(last).len() > 0 {
            assert(live_only(last)[0].live);
        }
        assert(orders_of(last, grid.price(levels.len() - 1)).len() == 0);
    }
}

/// The orders of a side lose what is traded and no more, each of them what it trades, where
/// taking it from the one that is filled in part, if any, does not round. Orders that are for
/// something stay so.
pub proof fn lemma_levels_conserve(
    grid: Grid,
    side: Side,
    levels: Seq<Seq<Slot>>,
    at: int,
    limit: int,
    taker: OrderId,
    quantity: Quantity,
    pick: spec_fn(OrderId, Price) -> bool,
)
    requires
        levels_makers_exact(grid, side, levels, at, limit, taker, quantity),
    ensures
        ({
            let out = sweep_levels(grid, side, levels, at, limit, taker, quantity);
            &&& levels_amount(grid, out.levels, pick) + filled_of(out.fills, pick)
                == levels_amount(grid, levels, pick)
            &&& orders_positive(grid, levels) ==> orders_positive(grid, out.levels)
        }),
    decreases
            (match side {
                Side::Buy => at + 1,
                Side::Sell => levels.len() - at,
            }),
{
    if !(quantity.units() <= 0 || !(0 <= at < levels.len()) || beats(side, limit, at)) {
        let price = grid.price(at);
        let here = fill_slots(levels[at], 0, taker, price, quantity);
        let orders = orders_of(levels[at], price);
        let queue = fill_queue(orders, taker, price, quantity);
        let next = levels.update(at, here.slots);
        lemma_tombstones_make_no_difference(levels[at], 0, taker, price, quantity);
        assert(levels[at].skip(0) =~= levels[at]);
        assert(here.slots.skip(0) =~= here.slots);
        lemma_makers_conserve(orders, taker, price, quantity, pick);
        lemma_amount_update(grid, levels, at, here.slots, pick);
        if orders_positive(grid, levels) {
            assert forall|i: int| 0 <= i < orders.len() implies (
            #[trigger] orders[i]).quantity.valid() && orders[i].quantity.units() > 0 by {
                assert(orders[i] == level_orders(grid, levels, at)[i]);
            }
            lemma_left_positive(orders, taker, price, quantity);
            assert forall|l: int, i: int|
                0 <= l < next.len() && 0 <= i < level_orders(grid, next, l).len() implies {
                &&& (#[trigger] level_orders(grid, next, l)[i]).quantity.valid()
                &&& level_orders(grid, next, l)[i].quantity.units() > 0
            } by {
                if l == at {
                    assert(level_orders(grid, next, l)[i] == queue.queue[i]);
                } else {
                    assert(level_orders(grid, next, l)[i] == level_orders(grid, levels, l)[i]);
                }
            }
        }
        let rest = sweep_levels(
            grid,
            side,
            next,
            next_level(side, at),
            limit,
            taker,
            here.remaining,
        );
        lemma_levels_conserve(
            grid,
            side,
            next,
            next_level(side, at),
            limit,
            taker,
            here.remaining,
            pick,
        );
        lemma_filled_of_concat(here.fills, rest.fills, pick);
    }
}

/// Something is left of the incoming quantity only once no order rests at a level that the trade
/// could come to.
pub proof fn lemma_levels_used_up(
    grid: Grid,
    side: Side,
    levels: Seq<Seq<Slot>>,
    at: int,
    limit: int,
    taker: OrderId,
    quantity: Quantity,
)
    requires
        match side {
            Side::Buy => at < levels.len(),
            Side::Sell => 0 <= at,
        },
    ensures
        ({
            let out = sweep_levels(grid, side, levels, at, limit, taker, quantity);
            &&& out.levels.len() == levels.len()
            &&& forall|l: int|
                0 <= l < levels.len() && beats(side, l, at) ==> #[trigger] out.levels[l]
                    == levels[l]
            &&& out.remaining.units() > 0 ==> forall|l: int|
                0 <= l < levels.len() && !beats(side, l, at) && !beats(side, limit, l)
                    ==> !any_live(#[trigger] out.levels[l])
        }),
    decreases
            (match side {
                Side::Buy => at + 1,
                Side::Sell => levels.len() - at,
            }),
{
    if !(quantity.units() <= 0 || !(0 <= at < levels.len()) || beats(side, limit, at)) {
        let price = grid.price(at);
        let here = fill_slots(levels[at], 0, taker, price, quantity);
        let next = levels.update(at, here.slots);
        let out = sweep_levels(grid, side, levels, at, limit, taker, quantity);
        let rest = sweep_levels(
            grid,
            side,
            next,
            next_level(side, at),
            limit,
            taker,
            here.remaining,
        );
        lemma_slots_used_up(levels[at], taker, price, quantity);
        lemma_levels_used_up(
            grid,
            side,
            next,
            next_level(side, at),
            limit,
            taker,
            here.remaining,
        );
        if out.remaining.units() > 0 {
            assert(here.remaining.units() > 0) by {
                if here.remaining.units() <= 0 {
                    assert(rest.remaining == here.remaining);
                }
            }
            assert forall|l: int|
                0 <= l < levels.len() && !beats(side, l, at) && !beats(
                    side,
                    limit,
                    l,
                ) implies !any_live(#[trigger] out.levels[l]) by {
                if l == at {
                    assert(rest.levels[at] == next[at]);
                }
            }
        }
    }
}

/// What orderly trades leave is not below zero.
proof fn lemma_left_not_negative(
    quantity: Quantity,
    fills: Seq<Fill>,
    resting: spec_fn(Quantity) -> bool,
)
    requires
        quantity.valid(),
        quantity.units() >= 0,
        orderly(quantity, fills, resting),
        exact_steps(quantity, fills),
    ensures
        less_fills(quantity, fills).valid(),
        less_fills(quantity, fills).units() >= 0,
    decreases fills.len(),
{
    if fills.len() > 0 {
        lemma_left_not_negative(quantity, fills.drop_last(), resting);
        lemma_difference_exact(less_fills(quantity, fills.drop_last()), fills.last().quantity);
    }
}

/// No trade of a side rounds at the makers' end, where the quantity that comes in and all those
/// that rest can be written with the same number of decimal places.
pub proof fn lemma_grained_levels(
    grid: Grid,
    side: Side,
    levels: Seq<Seq<Slot>>,
    at: int,
    limit: int,
    taker: OrderId,
    quantity: Quantity,
    places: nat,
)
    requires
        places <= MAX_SCALE,
        grained(quantity, places),
        orders_positive(grid, levels),
        forall|l: int, i: int|
            0 <= l < levels.len() && !beats(side, l, at) && 0 <= i < level_orders(
                grid,
                levels,
                l,
            ).len() ==> grained(
                (#[trigger] level_orders(grid, levels, l)[i]).quantity,
                places,
            ),
    ensures
        levels_makers_exact(grid, side, levels, at, limit, taker, quantity),
    decreases
            (match side {
                Side::Buy => at + 1,
                Side::Sell => levels.len() - at,
            }),
{
    if !(quantity.units() <= 0 || !(0 <= at < levels.len()) || beats(side, limit, at)) {
        let price = grid.price(at);
        let here = fill_slots(levels[at], 0, taker, price, quantity);
        let orders = orders_of(levels[at], price);
        let queue = fill_queue(orders, taker, price, quantity);
        let next = levels.update(at, here.slots);
        lemma_tombstones_make_no_difference(levels[at], 0, taker, price, quantity);
        assert(levels[at].skip(0) =~= levels[at]);
        assert(here.slots.skip(0) =~= here.slots);
        assert forall|i: int| 0 <= i < orders.len() implies {
            &&& (#[trigger] orders[i]).quantity.valid()
            &&& orders[i].quantity.units() > 0
            &&& grained(orders[i].quantity, places)
        } by {
            assert(orders[i] == level_orders(grid, levels, at)[i]);
        }
        lemma_grained_makers(orders, taker, price, quantity, places);
        lemma_left_positive(orders, taker, price, quantity);
        assert forall|l: int, i: int|
            0 <= l < next.len() && 0 <= i < level_orders(grid, next, l).len() implies {
            &&& (#[trigger] level_orders(grid, next, l)[i]).quantity.valid()
            &&& level_orders(grid, next, l)[i].quantity.units() > 0
        } by {
            if l == at {
                assert(level_orders(grid, next, l)[i] == queue.queue[i]);
            } else {
                assert(level_orders(grid, next, l)[i] == level_orders(grid, levels, l)[i]);
            }
        }
        assert forall|l: int, i: int|
            0 <= l < next.len() && !beats(side, l, next_level(side, at)) && 0 <= i < level_orders(
                grid,
                next,
                l,
            ).len() implies grained(
            (#[trigger] level_orders(grid, next, l)[i]).quantity,
            places,
        ) by {
            assert(level_orders(grid, next, l)[i] == level_orders(grid, levels, l)[i]);
        }
        lemma_grained_levels(
            grid,
            side,
            next,
            next_level(side, at),
            limit,
            taker,
            here.remaining,
            places,
        );
    }
}

impl FixedState {
    /// Whether taking a trade from the order that is filled in part, if any, does not round.
    pub open spec fn makers_exact(
        self,
        id: OrderId,
        side: Side,
        limit: int,
        qty: Quantity,
    ) -> bool {
        let facing = opposite(side);
        match best_level(facing, self.side(facing)) {
            Some(best) => levels_makers_exact(
                self.grid,
                facing,
                self.side(facing),
                best,
                limit,
                id,
                qty,
            ),
            None => true,
        }
    }

    /// The orders of a book lose what is traded and no more, each of them what it trades, where
    /// taking it from the one that is filled in part, if any, does not round.
    pub proof fn lemma_makers_conserve(
        self,
        id: OrderId,
        side: Side,
        limit: int,
        qty: Quantity,
        pick: spec_fn(OrderId, Price) -> bool,
    )
        requires
            self.makers_exact(id, side, limit, qty),
        ensures
            levels_amount(
                self.grid,
                self.after_trades(id, side, limit, qty).side(opposite(side)),
                pick,
            ) + filled_of(self.trades(id, side, limit, qty).fills, pick) == levels_amount(
                self.grid,
                self.side(opposite(side)),
                pick,
            ),
    {
        let facing = opposite(side);
        if let Some(best) = best_level(facing, self.side(facing)) {
            lemma_levels_conserve(
                self.grid,
                facing,
                self.side(facing),
                best,
                limit,
                id,
                qty,
                pick,
            );
        }
    }

    /// A market order trades the smaller of its quantity and all that rests on the other side,
    /// where nothing rounds.
    pub proof fn lemma_market_order_trades_all(self, id: OrderId, side: Side, qty: Quantity)
        requires
            self.wf(),
            qty.valid(),
            qty.units() > 0,
            exact_steps(qty, self.trades(id, side, self.market_limit(side), qty).fills),
            self.makers_exact(id, side, self.market_limit(side), qty),
        ensures
            ({
                let all = levels_amount(
                    self.grid,
                    self.side(opposite(side)),
                    |id: OrderId, price: Price| true,
                );
                filled(self.trades(id, side, self.market_limit(side), qty).fills) == if qty.units()
                    <= all {
                    qty.units()
                } else {
                    all
                }
            }),
    {
        let limit = self.market_limit(side);
        let facing = opposite(side);
        let levels = self.side(facing);
        let out = self.trades(id, side, limit, qty);
        let pick = |id: OrderId, price: Price| true;
        let resting = |resting: Quantity| true;
        self.lemma_trades_orderly(id, side, limit, qty, resting);
        lemma_conservation(qty, out.fills);
        lemma_left_not_negative(qty, out.fills, resting);
        self.lemma_makers_conserve(id, side, limit, qty, pick);
        lemma_filled_all(out.fills);
        assert(levels_wf(levels));
        lemma_orders_positive(self.grid, levels);
        match best_level(facing, levels) {
            Some(best) => {
                assert(is_best_level(facing, levels, best));
                lemma_levels_conserve(self.grid, facing, levels, best, limit, id, qty, pick);
                lemma_levels_amount_not_negative(self.grid, out.levels, pick);
                lemma_levels_used_up(self.grid, facing, levels, best, limit, id, qty);
                if out.remaining.units() > 0 {
                    assert forall|l: int| 0 <= l < out.levels.len() implies !any_live(
                        #[trigger] out.levels[l],
                    ) by {
                        if beats(facing, l, best) {
                            assert(!any_live(levels[l]));
                        }
                    }
                    lemma_no_orders_amount(self.grid, out.levels, pick);
                }
            },
            None => {
                assert forall|l: int| 0 <= l < levels.len() implies !any_live(
                    #[trigger] levels[l],
                ) by {
                    if any_live(levels[l]) {
                        self.lemma_best_level_is_best(facing, l);
                    }
                }
                lemma_no_orders_amount(self.grid, levels, pick);
            },
        }
    }
}

} // verus!
