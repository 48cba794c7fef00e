//! What holds of the book with fixed capacity, whatever is done to it.
use crate::decimal::{difference, MAX_SCALE};
use crate::fixed_state::{last_place, levels_fit, tombstone, FixedState};
use crate::grid::Grid;
use crate::levels::{
    beats, best_level, exact_at_orders, is_best_level, lemma_best_level, levels_wf, next_level, no_orders,
    sweep_levels,
};
use crate::matching::{
    exact_steps, fill_queue, fill_with, filled, grained, lemma_conservation,
    lemma_fill_queue_orderly, lemma_fill_queue_remaining, lemma_fills_positive,
    lemma_grained_is_exact, lemma_less_fills_concat, lemma_orderly_concat, lemma_queue_used_up,
    less_fills, orderly, without,
};
use crate::order::Order;
use crate::orderbook::opposite;
use crate::ring_level::{any_live, lemma_live_only, live_only, MAX_SLOTS, Slot};
use crate::slots::{after_fill, fill_slots, lemma_fill_slots_places, slots_wf};
use crate::types::{OrderId, Price, Quantity, Side};
use vstd::prelude::*;

verus! {

/// The orders that rest at a level, first come first.
pub open spec fn orders_of(slots: Seq<Slot>, price: Price) -> Seq<Order> {
    live_only(slots).map_values(
        |slot: Slot| Order { id: slot.id, price, quantity: slot.quantity },
    )
}

/// The orders at the first place and at the others.
proof fn lemma_live_only_front(slots: Seq<Slot>)
    requires
        slots.len() > 0,
    ensures
        live_only(slots) == (if slots[0].live {
            seq![slots[0]]
        } else {
            seq![]
        }) + live_only(slots.skip(1)),
    decreases slots.len(),
{
    let shorter = slots.drop_last();
    if shorter.len() > 0 {
        lemma_live_only_front(shorter);
        assert(shorter.skip(1) =~= slots.skip(1).drop_last());
        assert(slots.skip(1).last() == slots.last());
    } else {
        assert(slots.skip(1) =~= Seq::<Slot>::empty());
        assert(shorter =~= Seq::<Slot>::empty());
    }
    assert(live_only(slots) =~= (if slots[0].live {
        seq![slots[0]]
    } else {
        seq![]
    }) + live_only(slots.skip(1)));
}

/// The orders at places `from` and up.
pub proof fn lemma_orders_from(slots: Seq<Slot>, from: int, price: Price)
    requires
        0 <= from < slots.len(),
    ensures
        orders_of(slots.skip(from), price) == (if slots[from].live {
            seq![Order { id: slots[from].id, price, quantity: slots[from].quantity }]
        } else {
            seq![]
        }) + orders_of(slots.skip(from + 1), price),
{
    lemma_live_only_front(slots.skip(from));
    assert(slots.skip(from).skip(1) =~= slots.skip(from + 1));
    assert(orders_of(slots.skip(from), price) =~= (if slots[from].live {
        seq![Order { id: slots[from].id, price, quantity: slots[from].quantity }]
    } else {
        seq![]
    }) + orders_of(slots.skip(from + 1), price));
}

/// Tombstones make no difference: the places from `from` on trade as the queue of the orders
/// there does.
pub proof fn lemma_tombstones_make_no_difference(
    slots: Seq<Slot>,
    from: nat,
    taker: OrderId,
    price: Price,
    quantity: Quantity,
)
    requires
        from <= slots.len(),
    ensures
        ({
            let out = fill_slots(slots, from, taker, price, quantity);
            let queue = fill_queue(
                orders_of(slots.skip(from as int), price),
                taker,
                price,
                quantity,
            );
            &&& out.fills == queue.fills
            &&& out.retired == queue.retired
            &&& out.remaining == queue.remaining
            &&& orders_of(out.slots.skip(from as int), price) == queue.queue
            &&& out.slots.len() == slots.len()
            &&& forall|i: int| 0 <= i < from ==> #[trigger] out.slots[i] == slots[i]
        }),
    decreases slots.len() - from,
{
    let out = fill_slots(slots, from, taker, price, quantity);
    let orders = orders_of(slots.skip(from as int), price);
    if from >= slots.len() {
        assert(slots.skip(from as int) =~= Seq::<Slot>::empty());
        assert(orders =~= Seq::<Order>::empty());
    } else if quantity.units() > 0 {
        lemma_orders_from(slots, from as int, price);
        let others = orders_of(slots.skip(from as int + 1), price);
        if !slots[from as int].live {
            lemma_tombstones_make_no_difference(slots, from + 1, taker, price, quantity);
            assert(orders =~= others);
            assert(out.slots[from as int] == slots[from as int]);
            lemma_orders_from(out.slots, from as int, price);
            assert(orders_of(out.slots.skip(from as int), price) =~= orders_of(
                out.slots.skip(from as int + 1),
                price,
            ));
        } else {
            let maker = slots[from as int];
            let fill = fill_with(maker.id, maker.quantity, taker, price, quantity);
            let left = difference(quantity, fill.quantity);
            let next = slots.update(from as int, after_fill(maker, fill.quantity));
            assert(orders[0] == Order { id: maker.id, price, quantity: maker.quantity });
            assert(orders.skip(1) =~= others);
            assert(next.skip(from as int + 1) =~= slots.skip(from as int + 1));
            if fill.quantity.units() == maker.quantity.units() {
                lemma_tombstones_make_no_difference(next, from + 1, taker, price, left);
                assert(out.slots[from as int] == next[from as int]);
                lemma_orders_from(out.slots, from as int, price);
                assert(orders_of(out.slots.skip(from as int), price) =~= orders_of(
                    out.slots.skip(from as int + 1),
                    price,
                ));
            } else {
                lemma_orders_from(next, from as int, price);
                assert(orders_of(out.slots.skip(from as int), price) =~= orders.update(
                    0,
                    Order { quantity: difference(maker.quantity, fill.quantity), ..orders[0] },
                ));
            }
        }
    }
}

/// The trades with a level are orderly, and leave of the incoming quantity what they say.
pub proof fn lemma_fill_slots_orderly(
    slots: Seq<Slot>,
    taker: OrderId,
    price: Price,
    quantity: Quantity,
    resting: spec_fn(Quantity) -> bool,
)
    requires
        forall|i: int|
            0 <= i < slots.len() && (#[trigger] slots[i]).live ==> slots[i].quantity.units() > 0
                && resting(slots[i].quantity),
    ensures
        ({
            let out = fill_slots(slots, 0, taker, price, quantity);
            &&& out.remaining == less_fills(quantity, out.fills)
            &&& orderly(quantity, out.fills, resting)
        }),
{
    let orders = orders_of(slots, price);
    lemma_tombstones_make_no_difference(slots, 0, taker, price, quantity);
    assert(slots.skip(0) =~= slots);
    lemma_live_only(slots);
    assert forall|i: int| 0 <= i < orders.len() implies (#[trigger] orders[i]).quantity.units() > 0
        && resting(orders[i].quantity) by {
        let slot = live_only(slots)[i];
        let k = choose|k: int| 0 <= k < slots.len() && slots[k] == slot;
        assert(slots[k].live);
    }
    lemma_fill_queue_orderly(orders, taker, price, quantity, resting);
    lemma_fill_queue_remaining(orders, taker, price, quantity);
}

/// Something is left of the incoming quantity only once no order rests at the level.
pub proof fn lemma_slots_used_up(
    slots: Seq<Slot>,
    taker: OrderId,
    price: Price,
    quantity: Quantity,
)
    ensures
        ({
            let out = fill_slots(slots, 0, taker, price, quantity);
            &&& out.remaining == less_fills(quantity, out.fills)
            &&& out.remaining.units() > 0 ==> !any_live(out.slots)
        }),
{
    let out = fill_slots(slots, 0, taker, price, quantity);
    let orders = orders_of(slots, price);
    lemma_tombstones_make_no_difference(slots, 0, taker, price, quantity);
    assert(slots.skip(0) =~= slots);
    assert(out.slots.skip(0) =~= out.slots);
    lemma_fill_queue_remaining(orders, taker, price, quantity);
    lemma_queue_used_up(orders, taker, price, quantity);
    if out.remaining.units() > 0 {
        assert(orders_of(out.slots, price).len() == 0);
        lemma_live_only(out.slots);
    }
}

/// The trades with a side are orderly, and leave of the incoming quantity what they say.
pub proof fn lemma_sweep_levels_orderly(
    grid: Grid,
    side: Side,
    levels: Seq<Seq<Slot>>,
    at: int,
    limit: int,
    taker: OrderId,
    quantity: Quantity,
    resting: spec_fn(Quantity) -> bool,
)
    requires
        forall|l: int, i: int|
            0 <= l < levels.len() && !beats(side, l, at) && 0 <= i < levels[l].len() && (
            #[trigger] levels[l][i]).live ==> levels[l][i].quantity.units() > 0 && resting(
                levels[l][i].quantity,
            ),
    ensures
        ({
            let out = sweep_levels(grid, side, levels, at, limit, taker, quantity);
            &&& out.remaining == less_fills(quantity, out.fills)
            &&& orderly(quantity, out.fills, resting)
        }),
    decreases
            (match side {
                Side::Buy => at + 1,
                Side::Sell => levels.len() - at,
            }),
{
    if !(quantity.units() <= 0 || !(0 <= at < levels.len()) || beats(side, limit, at)) {
        let price = grid.price(at);
        let here = fill_slots(levels[at], 0, taker, price, quantity);
        let next = levels.update(at, here.slots);
        assert forall|i: int|
            0 <= i < levels[at].len() && (
            #[trigger] levels[at][i]).live implies levels[at][i].quantity.units() > 0 && resting(
            levels[at][i].quantity,
        ) by {
            assert(!beats(side, at, at));
        }
        lemma_fill_slots_orderly(levels[at], taker, price, quantity, resting);
        assert forall|l: int, i: int|
            0 <= l < next.len() && !beats(side, l, next_level(side, at)) && 0 <= i < next[l].len()
                && (#[trigger] next[l][i]).live implies next[l][i].quantity.units() > 0 && resting(
            next[l][i].quantity,
        ) by {
            assert(next[l][i] == levels[l][i]);
        }
        lemma_sweep_levels_orderly(
            grid,
            side,
            next,
            next_level(side, at),
            limit,
            taker,
            here.remaining,
            resting,
        );
        let rest = sweep_levels(
            grid,
            side,
            next,
            next_level(side, at),
            limit,
            taker,
            here.remaining,
        );
        lemma_less_fills_concat(quantity, here.fills, rest.fills);
        lemma_orderly_concat(quantity, here.fills, rest.fills, resting);
    }
}

/// Best level first: each trade is at the price of a level between the best one and the limit,
/// and levels get no better from one trade to the next. A level is traded with only where an order
/// rests at it, and once no order rests at a better one. Returns the level of each trade.
pub proof fn lemma_best_level_first(
    grid: Grid,
    side: Side,
    levels: Seq<Seq<Slot>>,
    at: int,
    limit: int,
    taker: OrderId,
    quantity: Quantity,
) -> (of: Seq<int>)
    ensures
        ({
            let out = sweep_levels(grid, side, levels, at, limit, taker, quantity);
            &&& of.len() == out.fills.len()
            &&& forall|i: int|
                0 <= i < of.len() ==> {
                    &&& 0 <= #[trigger] of[i] < levels.len()
                    &&& any_live(levels[of[i]])
                    &&& out.fills[i].price == grid.price(of[i])
                    &&& out.fills[i].taker_order_id == taker
                    &&& !beats(side, of[i], at)
                    &&& !beats(side, limit, of[i])
                }
            &&& forall|i: int, j: int|
                0 <= i < j < of.len() ==> !beats(side, #[trigger] of[j], #[trigger] of[i])
            &&& out.levels.len() == levels.len()
            &&& forall|l: int|
                0 <= l < levels.len() && beats(side, l, at) ==> #[trigger] out.levels[l]
                    == levels[l]
            &&& forall|i: int, l: int|
                #![trigger of[i], out.levels[l]]
                0 <= i < of.len() && 0 <= l < levels.len() && beats(side, l, of[i]) && !beats(
                    side,
                    l,
                    at,
                ) ==> !any_live(out.levels[l])
        }),
    decreases
            (match side {
                Side::Buy => at + 1,
                Side::Sell => levels.len() - at,
            }),
{
    if quantity.units() <= 0 || !(0 <= at < levels.len()) || beats(side, limit, at) {
        seq![]
    } else {
        let price = grid.price(at);
        let here = fill_slots(levels[at], 0, taker, price, quantity);
        let next = levels.update(at, here.slots);
        lemma_tombstones_make_no_difference(levels[at], 0, taker, price, quantity);
        crate::matching::lemma_first_come_first_served(
            orders_of(levels[at].skip(0), price),
            taker,
            price,
            quantity,
        );
        let rest = sweep_levels(
            grid,
            side,
            next,
            next_level(side, at),
            limit,
            taker,
            here.remaining,
        );
        let others = lemma_best_level_first(
            grid,
            side,
            next,
            next_level(side, at),
            limit,
            taker,
            here.remaining,
        );
        let n = here.fills.len();
        let of = Seq::new(n, |i: int| at) + others;
        let out = sweep_levels(grid, side, levels, at, limit, taker, quantity);
        if n > 0 {
            lemma_live_only(levels[at]);
            assert(levels[at].skip(0) =~= levels[at]);
            assert(live_only(levels[at])[0].live);
            assert(any_live(levels[at]));
        }
        assert forall|i: int| 0 <= i < of.len() implies {
            &&& 0 <= #[trigger] of[i] < levels.len()
            &&& any_live(levels[of[i]])
            &&& out.fills[i].price == grid.price(of[i])
            &&& out.fills[i].taker_order_id == taker
            &&& !beats(side, of[i], at)
            &&& !beats(side, limit, of[i])
        } by {
            if i < n {
                assert(out.fills[i] == here.fills[i]);
            } else {
                assert(of[i] == others[i - n]);
                assert(out.fills[i] == rest.fills[i - n]);
                assert(next[of[i]] == levels[of[i]]);
            }
        }
        assert forall|i: int, j: int| 0 <= i < j < of.len() implies !beats(
            side,
            #[trigger] of[j],
            #[trigger] of[i],
        ) by {
            if i >= n {
                assert(of[i] == others[i - n]);
                assert(of[j] == others[j - n]);
            } else if j >= n {
                assert(of[j] == others[j - n]);
            }
        }
        lemma_slots_used_up(levels[at], taker, price, quantity);
        assert forall|i: int, l: int|
            #![trigger of[i], out.levels[l]]
            0 <= i < of.len() && 0 <= l < levels.len() && beats(side, l, of[i]) && !beats(
                side,
                l,
                at,
            ) implies !any_live(out.levels[l]) by {
            assert(i >= n);
            assert(of[i] == others[i - n]);
            if l == at {
                assert(rest.fills.len() > 0);
                assert(rest.levels[at] == next[at]);
            } else {
                assert(!any_live(rest.levels[l]));
            }
        }
        of
    }
}

/// A trade neither moves orders nor brings any: each place keeps its id, and where an order rests
/// afterwards, one rested before. The ids of the orders that went are those that were retired.
pub proof fn lemma_sweep_levels_places(
    grid: Grid,
    side: Side,
    levels: Seq<Seq<Slot>>,
    at: int,
    limit: int,
    taker: OrderId,
    quantity: Quantity,
)
    ensures
        ({
            let out = sweep_levels(grid, side, levels, at, limit, taker, quantity);
            &&& out.levels.len() == levels.len()
            &&& forall|l: int|
                0 <= l < levels.len() ==> (#[trigger] out.levels[l]).len() == levels[l].len()
            &&& forall|l: int, i: int|
                #![trigger out.levels[l][i]]
                0 <= l < levels.len() && 0 <= i < levels[l].len() ==> {
                    &&& out.levels[l][i].id == levels[l][i].id
                    &&& out.levels[l][i].live ==> levels[l][i].live
                    &&& levels[l][i].live && !out.levels[l][i].live ==> out.retired.contains(
                        levels[l][i].id,
                    )
                }
            &&& forall|id: OrderId| #[trigger]
                out.retired.contains(id) ==> exists|l: int, i: int|
                    0 <= l < levels.len() && 0 <= i < levels[l].len() && (
                    #[trigger] levels[l][i]).id == id && levels[l][i].live
                        && !out.levels[l][i].live
        }),
    decreases
            (match side {
                Side::Buy => at + 1,
                Side::Sell => levels.len() - at,
            }),
{
    let out = sweep_levels(grid, side, levels, at, limit, taker, quantity);
    if !(quantity.units() <= 0 || !(0 <= at < levels.len()) || beats(side, limit, at)) {
        let price = grid.price(at);
        let here = fill_slots(levels[at], 0, taker, price, quantity);
        let next = levels.update(at, here.slots);
        lemma_fill_slots_places(levels[at], 0, taker, price, quantity);
        let rest = sweep_levels(
            grid,
            side,
            next,
            next_level(side, at),
            limit,
            taker,
            here.remaining,
        );
        lemma_sweep_levels_places(
            grid,
            side,
            next,
            next_level(side, at),
            limit,
            taker,
            here.remaining,
        );
        let n = here.retired.len() as int;
        assert forall|id: OrderId|
            here.retired.contains(id) || rest.retired.contains(
                id,
            ) implies #[trigger] out.retired.contains(id) by {
            if here.retired.contains(id) {
                let k = choose|k: int| 0 <= k < n && here.retired[k] == id;
                assert(out.retired[k] == id);
            } else {
                let k = choose|k: int| 0 <= k < rest.retired.len() && rest.retired[k] == id;
                assert(out.retired[k + n] == id);
            }
        }
        assert forall|l: int, i: int|
            #![trigger out.levels[l][i]]
            0 <= l < levels.len() && 0 <= i < levels[l].len() implies {
            &&& out.levels[l][i].id == levels[l][i].id
            &&& out.levels[l][i].live ==> levels[l][i].live
            &&& levels[l][i].live && !out.levels[l][i].live ==> out.retired.contains(
                levels[l][i].id,
            )
        } by {
            assert(rest.levels[l][i].id == next[l][i].id);
            if l == at {
                assert(here.slots[i].id == levels[l][i].id);
            }
        }
        assert forall|id: OrderId| #[trigger] out.retired.contains(id) implies exists|
            l: int,
            i: int,
        |
            0 <= l < levels.len() && 0 <= i < levels[l].len() && (#[trigger] levels[l][i]).id == id
                && levels[l][i].live && !out.levels[l][i].live by {
            let k = choose|k: int| 0 <= k < out.retired.len() && out.retired[k] == id;
            if k < n {
                assert(here.retired[k] == id);
                assert(here.retired.contains(id));
                let i = choose|i: int|
                    0 <= i < levels[at].len() && #[trigger] levels[at][i].id == id
                        && levels[at][i].live && !here.slots[i].live;
                assert(levels[at][i].id == id);
                assert(rest.levels[at][i].id == next[at][i].id);
            } else {
                assert(rest.retired[k - n] == id);
                assert(rest.retired.contains(id));
                let (l, i) = choose|l: int, i: int|
                    0 <= l < next.len() && 0 <= i < next[l].len() && (#[trigger] next[l][i]).id
                        == id && next[l][i].live && !rest.levels[l][i].live;
                if l == at {
                    assert(here.slots[i].id == levels[l][i].id);
                }
                assert(levels[l][i].id == id);
            }
        }
    }
}

impl FixedState {
    /// Nothing is lost: where no subtraction rounds, what was traded of an order and what is left
    /// of it add up to what came in.
    pub proof fn lemma_trades_conserve(self, id: OrderId, side: Side, limit: int, qty: Quantity)
        requires
            self.wf(),
            qty.valid(),
            exact_steps(qty, self.trades(id, side, limit, qty).fills),
        ensures
            ({
                let out = self.trades(id, side, limit, qty);
                filled(out.fills) + out.remaining.units() == qty.units()
            }),
    {
        self.lemma_trades_orderly(id, side, limit, qty, |resting: Quantity| true);
        lemma_conservation(qty, self.trades(id, side, limit, qty).fills);
    }

    /// No subtraction rounds where the quantity that comes in and all those that rest can be
    /// written with the same number of decimal places.
    pub proof fn lemma_trades_exact(
        self,
        id: OrderId,
        side: Side,
        limit: int,
        qty: Quantity,
        places: nat,
    )
        requires
            self.wf(),
            places <= MAX_SCALE,
            grained(qty, places),
            forall|l: int, i: int|
                0 <= l < self.side(opposite(side)).len() && 0 <= i < self.side(
                    opposite(side),
                )[l].len() && (#[trigger] self.side(opposite(side))[l][i]).live ==> grained(
                    self.side(opposite(side))[l][i].quantity,
                    places,
                ),
        ensures
            exact_steps(qty, self.trades(id, side, limit, qty).fills),
    {
        let resting = |resting: Quantity| grained(resting, places);
        self.lemma_trades_orderly(id, side, limit, qty, resting);
        lemma_grained_is_exact(qty, self.trades(id, side, limit, qty).fills, places);
    }

    /// Every trade is for something.
    pub proof fn lemma_trades_positive(self, id: OrderId, side: Side, limit: int, qty: Quantity)
        requires
            self.wf(),
        ensures
            forall|i: int|
                0 <= i < self.trades(id, side, limit, qty).fills.len() ==> (
                #[trigger] self.trades(id, side, limit, qty).fills[i]).quantity.units() > 0,
    {
        let resting = |resting: Quantity| true;
        self.lemma_trades_orderly(id, side, limit, qty, resting);
        lemma_fills_positive(qty, self.trades(id, side, limit, qty).fills, resting);
    }

    /// The trades of an order are orderly, and leave of it what they say.
    pub proof fn lemma_trades_orderly(
        self,
        id: OrderId,
        side: Side,
        limit: int,
        qty: Quantity,
        resting: spec_fn(Quantity) -> bool,
    )
        requires
            self.wf(),
            forall|l: int, i: int|
                0 <= l < self.side(opposite(side)).len() && 0 <= i < self.side(
                    opposite(side),
                )[l].len() && (#[trigger] self.side(opposite(side))[l][i]).live ==> resting(
                    self.side(opposite(side))[l][i].quantity,
                ),
        ensures
            ({
                let out = self.trades(id, side, limit, qty);
                &&& out.remaining == less_fills(qty, out.fills)
                &&& orderly(qty, out.fills, resting)
            }),
    {
        let facing = opposite(side);
        let levels = self.side(facing);
        assert(levels_wf(levels));
        if let Some(best) = best_level(facing, levels) {
            assert forall|l: int, i: int|
                0 <= l < levels.len() && 0 <= i < levels[l].len() && (
                #[trigger] levels[l][i]).live implies levels[l][i].quantity.units() > 0 && resting(
                levels[l][i].quantity,
            ) by {
                assert(slots_wf(levels[l]));
            }
            lemma_sweep_levels_orderly(
                self.grid,
                facing,
                levels,
                best,
                limit,
                id,
                qty,
                resting,
            );
        }
    }

    /// No order trades at a worse price than that of its level, and the trades come best price
    /// first, where the prices that are compared do not round: a buyer pays no more, a seller gets
    /// no less.
    pub proof fn lemma_limit_respected(self, id: OrderId, side: Side, limit: int, qty: Quantity)
        requires
            self.grid.tick.units() > 0,
            exact_at_orders(self.grid, self.side(opposite(side))),
        ensures
            ({
                let fills = self.trades(id, side, limit, qty).fills;
                &&& self.grid.exact(limit) ==> forall|i: int|
                    0 <= i < fills.len() ==> match side {
                        Side::Buy => (#[trigger] fills[i]).price.units() <= self.grid.price(
                            limit,
                        ).units(),
                        Side::Sell => fills[i].price.units() >= self.grid.price(limit).units(),
                    }
                &&& forall|i: int, j: int|
                    0 <= i < j < fills.len() ==> match side {
                        Side::Buy => (#[trigger] fills[i]).price.units() <= (
                        #[trigger] fills[j]).price.units(),
                        Side::Sell => fills[i].price.units() >= fills[j].price.units(),
                    }
            }),
    {
        let facing = opposite(side);
        let levels = self.side(facing);
        let fills = self.trades(id, side, limit, qty).fills;
        if let Some(best) = best_level(facing, levels) {
            let of = lemma_best_level_first(self.grid, facing, levels, best, limit, id, qty);
            assert forall|i: int|
                self.grid.exact(limit) && 0 <= i < fills.len() implies match side {
                Side::Buy => (#[trigger] fills[i]).price.units() <= self.grid.price(limit).units(),
                Side::Sell => fills[i].price.units() >= self.grid.price(limit).units(),
            } by {
                assert(any_live(levels[of[i]]));
                if of[i] < limit {
                    self.grid.lemma_prices_rise(of[i], limit);
                } else if of[i] > limit {
                    self.grid.lemma_prices_rise(limit, of[i]);
                }
            }
            assert forall|i: int, j: int| 0 <= i < j < fills.len() implies match side {
                Side::Buy => (#[trigger] fills[i]).price.units() <= (
                #[trigger] fills[j]).price.units(),
                Side::Sell => fills[i].price.units() >= fills[j].price.units(),
            } by {
                assert(!beats(facing, of[j], of[i]));
                assert(any_live(levels[of[i]]) && any_live(levels[of[j]]));
                if of[i] < of[j] {
                    self.grid.lemma_prices_rise(of[i], of[j]);
                } else if of[i] > of[j] {
                    self.grid.lemma_prices_rise(of[j], of[i]);
                }
            }
        }
    }

    /// A market order does not come to rest: its own side of the book stays as it is, and it is
    /// not entered in the index.
    pub proof fn lemma_market_order_never_rests(self, id: OrderId, side: Side, qty: Quantity)
        ensures
            ({
                let after = self.after_trades(id, side, self.market_limit(side), qty);
                &&& after.side(side) == self.side(side)
                &&& forall|other: OrderId| #[trigger]
                    after.index.contains_key(other) ==> self.index.contains_key(other)
            }),
    {
    }

    /// A cancelled order is gone: cancelling it again finds nothing, and changes nothing.
    pub proof fn lemma_cancelled_once(self, id: OrderId)
        ensures
            !self.after_cancel(id).index.contains_key(id),
            self.after_cancel(id).after_cancel(id) == self.after_cancel(id),
    {
    }

    /// Cancelling frees no room: a level has as many places taken as before.
    pub proof fn lemma_cancel_frees_no_room(self, id: OrderId, side: Side, level: int)
        requires
            0 <= level < self.side(side).len(),
            self.index.contains_key(id) ==> self.occupied(self.index[id]),
        ensures
            self.after_cancel(id).side(side)[level].len() == self.side(side)[level].len(),
    {
    }

    /// An order that trades with nothing, finds room and is cancelled leaves a tombstone at the
    /// end of its level and nothing else, where its id was not in use.
    pub proof fn lemma_add_then_cancel(
        self,
        id: OrderId,
        side: Side,
        price: Price,
        level: int,
        qty: Quantity,
    )
        requires
            self.wf(),
            self.grid.place(price) == Some(level),
            qty.units() > 0,
            self.trades(id, side, level, qty).fills.len() == 0,
            self.side(side)[level].len() < self.depth,
            self.side(side)[level].len() < MAX_SLOTS,
            !self.index.contains_key(id),
        ensures
            ({
                let queue = self.side(side)[level];
                self.after_limit_order(id, side, price, qty).after_cancel(id) == self.with_side(
                    side,
                    self.side(side).update(
                        level,
                        queue.push(Slot { id, quantity: qty, live: false }),
                    ),
                )
            }),
    {
        let queue = self.side(side)[level];
        let facing = opposite(side);
        if let Some(best) = best_level(facing, self.side(facing)) {
            lemma_no_fills(self.grid, facing, self.side(facing), best, level, id, qty);
        }
        crate::matching::lemma_without_nothing(self.index);
        let added = self.after_limit_order(id, side, price, qty);
        let after = added.after_cancel(id);
        assert(added.index[id] == (side, level as usize, queue.len() as u16));
        assert(level as usize == level);
        assert(queue.len() as u16 == queue.len());
        let order = Slot { id, quantity: qty, live: true };
        assert(tombstone(queue.push(order), queue.len() as int) =~= queue.push(
            Slot { id, quantity: qty, live: false },
        ));
        assert(after.index =~= self.index);
        assert(after.side(side) =~= self.side(side).update(
            level,
            queue.push(Slot { id, quantity: qty, live: false }),
        ));
    }

    /// Compacting a level frees every place that was given up, and keeps the orders that rest
    /// there in their order. Nothing else of the book's levels changes.
    pub proof fn lemma_compaction_keeps_orders(self, side: Side, level: int)
        requires
            0 <= level < self.side(side).len(),
        ensures
            ({
                let after = self.after_compaction(side, level);
                &&& after.side(side)[level] == live_only(self.side(side)[level])
                &&& live_only(after.side(side)[level]) == live_only(self.side(side)[level])
                &&& after.side(side)[level].len() <= self.side(side)[level].len()
                &&& forall|l: int|
                    0 <= l < self.side(side).len() && l != level ==> #[trigger] after.side(side)[l]
                        == self.side(side)[l]
                &&& after.side(opposite(side)) == self.side(opposite(side))
            }),
    {
        lemma_live_only(self.side(side)[level]);
        lemma_all_live(live_only(self.side(side)[level]));
    }

    /// Compacting a level twice is compacting it once.
    pub proof fn lemma_compacted_once(self, side: Side, level: int)
        requires
            0 <= level < self.side(side).len(),
        ensures
            self.after_compaction(side, level).after_compaction(side, level)
                == self.after_compaction(side, level),
    {
        let kept = live_only(self.side(side)[level]);
        let once = self.after_compaction(side, level);
        let twice = once.after_compaction(side, level);
        lemma_live_only(self.side(side)[level]);
        lemma_all_live(kept);
        assert(twice.side(side) =~= once.side(side));
        assert(twice.index =~= once.index);
    }

    /// A market order trades as a limit order at the worst price of the book does, and leaves the
    /// other side as that does. Its own side it leaves alone.
    pub proof fn lemma_market_is_worst_limit(
        self,
        id: OrderId,
        side: Side,
        worst: Price,
        qty: Quantity,
    )
        requires
            self.grid.place(worst) == Some(self.market_limit(side)),
        ensures
            ({
                let market = self.after_trades(id, side, self.market_limit(side), qty);
                let limit = self.after_limit_order(id, side, worst, qty);
                &&& match self.limit_order_reply(id, side, worst, qty) {
                    Ok(fills) => fills == self.trades(
                        id,
                        side,
                        self.market_limit(side),
                        qty,
                    ).fills,
                    Err(_) => true,
                }
                &&& market.side(opposite(side)) == limit.side(opposite(side))
                &&& market.side(side) == self.side(side)
            }),
    {
    }

    /// The best price is what it is called: an order rests at it, and none at a better one, where
    /// the prices at which orders rest do not round. There is none only where no order rests.
    pub proof fn lemma_best_price_is_best(self, side: Side)
        ensures
            match self.best_price(side) {
                Some(price) => {
                    &&& exists|l: int|
                        0 <= l < self.side(side).len() && any_live(#[trigger] self.side(side)[l])
                            && price == self.grid.price(l)
                    &&& self.grid.tick.units() > 0 && exact_at_orders(
                        self.grid,
                        self.side(side),
                    ) ==> forall|l: int|
                        0 <= l < self.side(side).len() && any_live(#[trigger] self.side(side)[l])
                            ==> match side {
                            Side::Buy => self.grid.price(l).units() <= price.units(),
                            Side::Sell => self.grid.price(l).units() >= price.units(),
                        }
                },
                None => no_orders(self.side(side)),
            },
    {
        let levels = self.side(side);
        match best_level(side, levels) {
            Some(best) => {
                assert(is_best_level(side, levels, best));
                assert(any_live(levels[best]));
                assert forall|l: int|
                    self.grid.tick.units() > 0 && exact_at_orders(self.grid, levels) && 0 <= l
                        < levels.len() && any_live(#[trigger] levels[l]) implies match side {
                    Side::Buy => self.grid.price(l).units() <= self.grid.price(best).units(),
                    Side::Sell => self.grid.price(l).units() >= self.grid.price(best).units(),
                } by {
                    if l < best {
                        self.grid.lemma_prices_rise(l, best);
                    } else if best < l {
                        self.grid.lemma_prices_rise(best, l);
                    }
                }
            },
            None => {
                assert forall|l: int| 0 <= l < levels.len() implies !any_live(
                    #[trigger] levels[l],
                ) by {
                    if any_live(levels[l]) {
                        self.lemma_best_level_is_best(side, l);
                    }
                }
            },
        }
    }

    /// The best price is that of a level at which an order rests, the highest one of the buyers and
    /// the lowest one of the sellers, on every grid.
    pub proof fn lemma_best_price_by_level(self, side: Side, level: int)
        requires
            0 <= level < self.side(side).len(),
            any_live(self.side(side)[level]),
            forall|l: int|
                0 <= l < self.side(side).len() && any_live(#[trigger] self.side(side)[l])
                    ==> match side {
                    Side::Buy => l <= level,
                    Side::Sell => l >= level,
                },
        ensures
            self.best_price(side) == Some(self.grid.price(level)),
    {
        assert(is_best_level(side, self.side(side), level));
        lemma_best_level(side, self.side(side), level);
    }

    /// Whether prices rise from level to level, and neither of the best ones has to round.
    pub open spec fn best_prices_exact(self) -> bool {
        &&& self.grid.tick.units() > 0
        &&& best_level(Side::Buy, self.bids) matches Some(bid) ==> self.grid.exact(bid)
        &&& best_level(Side::Sell, self.asks) matches Some(ask) ==> self.grid.exact(ask)
    }

    /// The best bid is below the best ask, where neither of the two prices rounds.
    pub proof fn lemma_best_prices_uncrossed(self)
        requires
            self.uncrossed(),
            self.best_prices_exact(),
        ensures
            match (self.best_price(Side::Buy), self.best_price(Side::Sell)) {
                (Some(bid), Some(ask)) => bid.units() < ask.units(),
                _ => true,
            },
    {
        if let Some(bid) = best_level(Side::Buy, self.bids) {
            if let Some(ask) = best_level(Side::Sell, self.asks) {
                assert(is_best_level(Side::Buy, self.bids, bid));
                assert(is_best_level(Side::Sell, self.asks, ask));
                assert(any_live(self.bids[bid]) && any_live(self.asks[ask]));
                self.grid.lemma_prices_rise(bid, ask);
            }
        }
    }

    /// The best level is what it is called: no order rests at a better one.
    pub proof fn lemma_best_level_is_best(self, side: Side, level: int)
        requires
            0 <= level < self.side(side).len(),
            any_live(self.side(side)[level]),
        ensures
            best_level(side, self.side(side)) matches Some(best) && is_best_level(
                side,
                self.side(side),
                best,
            ) && !beats(side, level, best),
        decreases
                (match side {
                    Side::Buy => self.side(side).len() - level,
                    Side::Sell => level,
                }),
    {
        let levels = self.side(side);
        if is_best_level(side, levels, level) {
            lemma_best_level(side, levels, level);
        } else {
            let better = choose|i: int|
                0 <= i < levels.len() && any_live(#[trigger] levels[i]) && beats(side, i, level);
            self.lemma_best_level_is_best(side, better);
        }
    }
}

/// A trade with nothing changes nothing.
pub proof fn lemma_no_slot_fills(
    slots: Seq<Slot>,
    from: nat,
    taker: OrderId,
    price: Price,
    quantity: Quantity,
)
    requires
        fill_slots(slots, from, taker, price, quantity).fills.len() == 0,
    ensures
        ({
            let out = fill_slots(slots, from, taker, price, quantity);
            &&& out.slots == slots
            &&& out.retired == Seq::<OrderId>::empty()
            &&& out.remaining == quantity
        }),
    decreases slots.len() - from,
{
    if from < slots.len() && quantity.units() > 0 && !slots[from as int].live {
        lemma_no_slot_fills(slots, from + 1, taker, price, quantity);
    }
}

/// A trade with nothing changes nothing.
proof fn lemma_no_fills(
    grid: Grid,
    side: Side,
    levels: Seq<Seq<Slot>>,
    at: int,
    limit: int,
    taker: OrderId,
    quantity: Quantity,
)
    requires
        sweep_levels(grid, side, levels, at, limit, taker, quantity).fills.len() == 0,
    ensures
        ({
            let out = sweep_levels(grid, side, levels, at, limit, taker, quantity);
            &&& out.levels == levels
            &&& out.retired == Seq::<OrderId>::empty()
            &&& out.remaining == quantity
        }),
    decreases
            (match side {
                Side::Buy => at + 1,
                Side::Sell => levels.len() - at,
            }),
{
    if !(quantity.units() <= 0 || !(0 <= at < levels.len()) || beats(side, limit, at)) {
        let here = fill_slots(levels[at], 0, taker, grid.price(at), quantity);
        assert(here.fills.len() == 0);
        lemma_no_slot_fills(levels[at], 0, taker, grid.price(at), quantity);
        assert(levels.update(at, here.slots) =~= levels);
        lemma_no_fills(grid, side, levels, next_level(side, at), limit, taker, quantity);
    }
}

/// Leaving out the tombstones where there are none leaves out nothing.
pub proof fn lemma_all_live(slots: Seq<Slot>)
    requires
        forall|i: int| 0 <= i < slots.len() ==> (#[trigger] slots[i]).live,
    ensures
        live_only(slots) == slots,
    decreases slots.len(),
{
    if slots.len() > 0 {
        lemma_all_live(slots.drop_last());
        assert(slots.drop_last().push(slots.last()) =~= slots);
    } else {
        assert(live_only(slots) =~= slots);
    }
}

impl FixedState {
    /// Whether an order rests at place `i` of level `l`.
    pub open spec fn has_order(self, side: Side, l: int, i: int) -> bool {
        &&& 0 <= l < self.side(side).len()
        &&& 0 <= i < self.side(side)[l].len()
        &&& self.side(side)[l][i].live
    }

    /// The id at place `i` of level `l`.
    pub open spec fn id_at(self, side: Side, l: int, i: int) -> OrderId {
        self.side(side)[l][i].id
    }

    /// No two orders share an id, and the index has the orders that rest and no others, each with
    /// the place where it rests.
    pub open spec fn well_indexed(self) -> bool {
        &&& forall|side: Side, l: int, i: int| #[trigger]
            self.has_order(side, l, i) ==> {
                let id = self.id_at(side, l, i);
                self.index.contains_key(id) && self.index[id] == (side, l as usize, i as u16)
            }
        &&& forall|id: OrderId| #[trigger]
            self.index.contains_key(id) ==> {
                let (side, l, i) = self.index[id];
                self.has_order(side, l as int, i as int) && self.id_at(side, l as int, i as int)
                    == id
            }
    }

    /// A book without orders has them all in its index.
    pub proof fn lemma_blank_well_indexed(grid: Grid, depth: usize)
        ensures
            FixedState::blank(grid, depth).well_indexed(),
    {
    }

    /// Where the index has the orders that rest, cancelling any of them can be handled, and what
    /// the index has is what rests.
    pub proof fn lemma_can_cancel(self, id: OrderId)
        requires
            self.well_indexed(),
        ensures
            self.index.contains_key(id) ==> self.occupied(self.index[id]),
            self.index.contains_key(id) <==> exists|side: Side, l: int, i: int| #[trigger]
                self.has_order(side, l, i) && self.id_at(side, l, i) == id,
    {
        if self.index.contains_key(id) {
            let (side, l, i) = self.index[id];
            assert(self.has_order(side, l as int, i as int));
        }
    }

    /// Orders with the same id are the same order.
    pub proof fn lemma_one_place(self, s1: Side, l1: int, i1: int, s2: Side, l2: int, i2: int)
        requires
            self.wf(),
            self.well_indexed(),
            self.has_order(s1, l1, i1),
            self.has_order(s2, l2, i2),
            self.id_at(s1, l1, i1) == self.id_at(s2, l2, i2),
        ensures
            s1 == s2,
            l1 == l2,
            i1 == i2,
    {
        assert(levels_fit(self.side(s1), self.depth as int));
        assert(levels_fit(self.side(s2), self.depth as int));
        assert(self.side(s1)[l1].len() <= MAX_SLOTS && self.side(s2)[l2].len() <= MAX_SLOTS);
        assert(l1 as usize == l1 && l2 as usize == l2);
        assert(i1 as u16 == i1 && i2 as u16 == i2);
    }

    /// The index follows trades: the orders that were filled whole leave it, and no others.
    pub proof fn lemma_trades_well_indexed(self, id: OrderId, side: Side, limit: int, qty: Quantity)
        requires
            self.wf(),
            self.well_indexed(),
        ensures
            self.after_trades(id, side, limit, qty).well_indexed(),
    {
        let facing = opposite(side);
        let levels = self.side(facing);
        let out = self.trades(id, side, limit, qty);
        let after = self.after_trades(id, side, limit, qty);
        if let Some(best) = best_level(facing, levels) {
            lemma_sweep_levels_places(self.grid, facing, levels, best, limit, id, qty);
        }
        // An order that stays was there before, and was not retired.
        assert forall|s: Side, l: int, i: int| #[trigger] after.has_order(s, l, i) implies {
            &&& self.has_order(s, l, i)
            &&& after.id_at(s, l, i) == self.id_at(s, l, i)
            &&& !out.retired.contains(self.id_at(s, l, i))
        } by {
            if s == facing {
                assert(out.levels[l].len() == levels[l].len());
                assert(out.levels[l][i].id == levels[l][i].id);
            } else {
                assert(after.side(s) == self.side(s));
            }
            assert(self.has_order(s, l, i));
            let x = self.id_at(s, l, i);
            if out.retired.contains(x) {
                let (l2, i2) = choose|l2: int, i2: int|
                    0 <= l2 < levels.len() && 0 <= i2 < levels[l2].len() && (
                    #[trigger] levels[l2][i2]).id == x && levels[l2][i2].live
                        && !out.levels[l2][i2].live;
                assert(self.has_order(facing, l2, i2));
                self.lemma_one_place(s, l, i, facing, l2, i2);
            }
        }
        assert forall|x: OrderId| #[trigger] after.index.contains_key(x) implies {
            let (s, l, i) = after.index[x];
            after.has_order(s, l as int, i as int) && after.id_at(s, l as int, i as int) == x
        } by {
            assert(self.index.contains_key(x));
            let (s, l, i) = self.index[x];
            assert(self.has_order(s, l as int, i as int));
            if s == facing {
                assert(out.levels[l as int].len() == levels[l as int].len());
                assert(out.levels[l as int][i as int].id == levels[l as int][i as int].id);
            } else {
                assert(after.side(s) == self.side(s));
            }
        }
    }

    /// The index follows a limit order with an id that is not in use: what is left of it is
    /// entered where it rests.
    pub proof fn lemma_limit_order_well_indexed(
        self,
        id: OrderId,
        side: Side,
        price: Price,
        qty: Quantity,
    )
        requires
            self.wf(),
            self.well_indexed(),
            !self.index.contains_key(id),
            self.depth <= MAX_SLOTS || self.own_level(side, price).len() < MAX_SLOTS,
        ensures
            self.after_limit_order(id, side, price, qty).well_indexed(),
    {
        if let Some(level) = self.grid.place(price) {
            self.lemma_trades_well_indexed(id, side, level, qty);
            let traded = self.after_trades(id, side, level, qty);
            let remaining = self.trades(id, side, level, qty).remaining;
            let queue = self.own_level(side, price);
            let after = self.after_limit_order(id, side, price, qty);
            if remaining.units() > 0 && queue.len() < self.depth {
                assert(traded.side(side)[level] == queue);
                assert(queue.len() as u16 == queue.len());
                assert(level as usize == level);
                assert(after.has_order(side, level, queue.len() as int));
                assert forall|s: Side, l: int, i: int|
                    after.has_order(s, l, i) && !(s == side && l == level && i
                        == queue.len()) implies traded.has_order(s, l, i) && #[trigger] after.id_at(
                    s,
                    l,
                    i,
                ) == traded.id_at(s, l, i) by {}
                assert forall|s: Side, l: int, i: int| #[trigger]
                    after.has_order(s, l, i) implies {
                    let x = after.id_at(s, l, i);
                    after.index.contains_key(x) && after.index[x] == (s, l as usize, i as u16)
                } by {
                    if !(s == side && l == level && i == queue.len()) {
                        assert(after.id_at(s, l, i) == traded.id_at(s, l, i));
                        assert(traded.has_order(s, l, i));
                    }
                }
                assert forall|x: OrderId| #[trigger] after.index.contains_key(x) implies {
                    let (s, l, i) = after.index[x];
                    after.has_order(s, l as int, i as int) && after.id_at(s, l as int, i as int)
                        == x
                } by {
                    if x != id {
                        assert(traded.index.contains_key(x));
                        let (s, l, i) = traded.index[x];
                        assert(traded.has_order(s, l as int, i as int));
                        assert(after.has_order(s, l as int, i as int));
                    }
                }
            }
        }
    }

    /// The index follows a cancellation.
    pub proof fn lemma_cancel_well_indexed(self, id: OrderId)
        requires
            self.wf(),
            self.well_indexed(),
        ensures
            self.after_cancel(id).well_indexed(),
            forall|side: Side, l: int, i: int| #[trigger]
                self.after_cancel(id).has_order(side, l, i) ==> self.after_cancel(id).id_at(
                    side,
                    l,
                    i,
                ) != id,
    {
        let after = self.after_cancel(id);
        if self.index.contains_key(id) {
            let (s0, l0, i0) = self.index[id];
            assert(self.has_order(s0, l0 as int, i0 as int));
            assert forall|s: Side, l: int, i: int| #[trigger] after.has_order(s, l, i) implies {
                &&& self.has_order(s, l, i)
                &&& after.id_at(s, l, i) == self.id_at(s, l, i)
                &&& self.id_at(s, l, i) != id
            } by {
                assert(self.has_order(s, l, i));
                if self.id_at(s, l, i) == id {
                    self.lemma_one_place(s, l, i, s0, l0 as int, i0 as int);
                }
            }
            assert forall|x: OrderId| #[trigger] after.index.contains_key(x) implies {
                let (s, l, i) = after.index[x];
                after.has_order(s, l as int, i as int) && after.id_at(s, l as int, i as int) == x
            } by {
                assert(self.index.contains_key(x));
                let (s, l, i) = self.index[x];
                assert(self.has_order(s, l as int, i as int));
            }
        } else {
            assert forall|s: Side, l: int, i: int| #[trigger]
                after.has_order(s, l, i) implies after.id_at(s, l, i) != id by {
                assert(self.has_order(s, l, i));
            }
        }
    }

    /// The index follows a compaction: each order is found where it rests now.
    pub proof fn lemma_compaction_well_indexed(self, side: Side, level: int)
        requires
            self.wf(),
            self.well_indexed(),
            0 <= level < self.side(side).len(),
        ensures
            self.after_compaction(side, level).well_indexed(),
    {
        let after = self.after_compaction(side, level);
        let slots = self.side(side)[level];
        let kept = live_only(slots);
        lemma_live_only(slots);
        assert(levels_fit(self.side(side), self.depth as int));
        assert(slots.len() <= MAX_SLOTS);
        assert(level as usize == level);
        assert forall|i: int, j: int|
            0 <= i < j < slots.len() && (#[trigger] slots[i]).live && (
            #[trigger] slots[j]).live implies slots[i].id != slots[j].id by {
            assert(self.has_order(side, level, i) && self.has_order(side, level, j));
            if slots[i].id == slots[j].id {
                self.lemma_one_place(side, level, i, side, level, j);
            }
        }
        lemma_live_only_distinct(slots);
        assert forall|s: Side, l: int, i: int| #[trigger] after.has_order(s, l, i) implies {
            let x = after.id_at(s, l, i);
            after.index.contains_key(x) && after.index[x] == (s, l as usize, i as u16)
        } by {
            let x = after.id_at(s, l, i);
            if s == side && l == level {
                assert(kept[i].id == x);
                let k = choose|k: int| 0 <= k < slots.len() && slots[k] == kept[i];
                assert(self.has_order(side, level, k));
                lemma_last_place(kept, x, i);
            } else {
                assert(self.has_order(s, l, i));
                if last_place(kept, x) is Some {
                    let p = last_place(kept, x)->0;
                    lemma_last_place_found(kept, x);
                    let k = choose|k: int| 0 <= k < slots.len() && slots[k] == kept[p];
                    assert(self.has_order(side, level, k));
                    self.lemma_one_place(s, l, i, side, level, k);
                }
            }
        }
        assert forall|x: OrderId| #[trigger] after.index.contains_key(x) implies {
            let (s, l, i) = after.index[x];
            after.has_order(s, l as int, i as int) && after.id_at(s, l as int, i as int) == x
        } by {
            assert(self.index.contains_key(x));
            let (s, l, i) = self.index[x];
            assert(self.has_order(s, l as int, i as int));
            if s == side && l == level {
                lemma_live_kept(slots, i as int);
                let p = choose|p: int| 0 <= p < kept.len() && kept[p] == slots[i as int];
                lemma_last_place(kept, x, p);
                assert(p as u16 == p);
                assert(after.has_order(side, level, p));
            } else {
                if last_place(kept, x) is Some {
                    let p = last_place(kept, x)->0;
                    lemma_last_place_found(kept, x);
                    let k = choose|k: int| 0 <= k < slots.len() && slots[k] == kept[p];
                    assert(self.has_order(side, level, k));
                    self.lemma_one_place(s, l as int, i as int, side, level, k);
                }
                assert(after.has_order(s, l as int, i as int));
            }
        }
    }
}

/// A tombstone takes one order out of those that rest, at the place among them that it had.
pub proof fn lemma_live_only_tombstone(slots: Seq<Slot>, i: int)
    requires
        0 <= i < slots.len(),
        slots[i].live,
    ensures
        ({
            let k = live_only(slots.take(i)).len() as int;
            &&& k < live_only(slots).len()
            &&& live_only(slots)[k] == slots[i]
            &&& live_only(tombstone(slots, i)) == live_only(slots).remove(k)
        }),
    decreases slots.len(),
{
    let k = live_only(slots.take(i)).len() as int;
    let shorter = slots.drop_last();
    let after = tombstone(slots, i);
    if i == slots.len() - 1 {
        assert(shorter =~= slots.take(i));
        assert(after.drop_last() =~= shorter);
        assert(live_only(slots).remove(k) =~= live_only(shorter));
    } else {
        lemma_live_only_tombstone(shorter, i);
        assert(shorter.take(i) =~= slots.take(i));
        assert(after.drop_last() =~= tombstone(shorter, i));
        assert(after.last() == slots.last());
        assert(live_only(after) =~= live_only(slots).remove(k));
    }
}

/// An order that rests is not left out with the tombstones.
pub proof fn lemma_live_kept(slots: Seq<Slot>, i: int)
    requires
        0 <= i < slots.len(),
        slots[i].live,
    ensures
        exists|p: int| 0 <= p < live_only(slots).len() && live_only(slots)[p] == slots[i],
    decreases slots.len(),
{
    let shorter = slots.drop_last();
    if i < shorter.len() {
        lemma_live_kept(shorter, i);
        let kept = live_only(shorter);
        let p = choose|p: int| 0 <= p < kept.len() && kept[p] == shorter[i];
        assert(live_only(slots)[p] == slots[i]);
    } else {
        assert(live_only(slots)[live_only(slots).len() - 1] == slots[i]);
    }
}

/// Leaving out the tombstones makes no two orders alike.
pub proof fn lemma_live_only_distinct(slots: Seq<Slot>)
    requires
        forall|i: int, j: int|
            0 <= i < j < slots.len() && (#[trigger] slots[i]).live && (#[trigger] slots[j]).live
                ==> slots[i].id != slots[j].id,
    ensures
        forall|i: int, j: int|
            0 <= i < j < live_only(slots).len() ==> (#[trigger] live_only(slots)[i]).id != (
            #[trigger] live_only(slots)[j]).id,
    decreases slots.len(),
{
    if slots.len() > 0 {
        let shorter = slots.drop_last();
        lemma_live_only_distinct(shorter);
        lemma_live_only(shorter);
        let kept = live_only(slots);
        assert forall|i: int, j: int| 0 <= i < j < kept.len() implies (#[trigger] kept[i]).id != (
        #[trigger] kept[j]).id by {
            if j == live_only(shorter).len() {
                let k = choose|k: int|
                    0 <= k < shorter.len() && shorter[k] == live_only(shorter)[i];
                assert(slots[k].live && slots[slots.len() - 1].live);
            } else {
                assert(live_only(shorter)[i].id != live_only(shorter)[j].id);
            }
        }
    }
}

/// The last of the places that hold an id holds it.
proof fn lemma_last_place_found(slots: Seq<Slot>, id: OrderId)
    requires
        last_place(slots, id) is Some,
    ensures
        0 <= last_place(slots, id)->0 < slots.len(),
        slots[last_place(slots, id)->0].id == id,
    decreases slots.len(),
{
    if slots.last().id != id {
        lemma_last_place_found(slots.drop_last(), id);
    }
}

/// Where no id occurs twice, the place that holds an id is the last one that does.
proof fn lemma_last_place(slots: Seq<Slot>, id: OrderId, i: int)
    requires
        0 <= i < slots.len(),
        slots[i].id == id,
        forall|i: int, j: int|
            0 <= i < j < slots.len() ==> (#[trigger] slots[i]).id != (#[trigger] slots[j]).id,
    ensures
        last_place(slots, id) == Some(i),
    decreases slots.len(),
{
    let shorter = slots.drop_last();
    if i < shorter.len() {
        assert(slots[i].id != slots[slots.len() - 1].id);
        assert forall|i: int, j: int| 0 <= i < j < shorter.len() implies (#[trigger] shorter[i]).id
            != (#[trigger] shorter[j]).id by {
            assert(slots[i].id != slots[j].id);
        }
        lemma_last_place(shorter, id, i);
    }
}

} // verus!
