//! What each call does to a book with fixed capacity, place by place.
use crate::decimal::difference;
use crate::fixed_book_laws::{lemma_orders_from, lemma_tombstones_make_no_difference, orders_of};
use crate::fixed_orderbook::FixedBookError;
use crate::fixed_state::{last_place, renumbered, FixedState, Location};
use crate::grid::Grid;
use crate::levels::{beats, best_level, is_best_level, next_level, sweep_levels};
use crate::matching::{
    exact_steps, fill_with, filled, lemma_conservation, less_fills, without,
};
use crate::order::Order;
use crate::orderbook::opposite;
use crate::ring_level::{any_live, live_only, MAX_SLOTS, Slot};
use crate::serving::{
    at_price, lemma_loses_others, lemma_loses_used_up, lemma_queue_served, lemma_served_concat,
    loses_used_up, served, used_up,
};
use crate::slots::{after_fill, fill_slots};
use crate::types::{Fill, OrderId, Price, Quantity, Side};
use vstd::prelude::*;

verus! {

impl FixedState {
    /// A limit order is refused exactly where it has to be. A price that has no level is answered
    /// with the range of the book. Otherwise the trades are returned, unless something is left of
    /// the order and every place of its level is taken.
    pub proof fn lemma_limit_order_answer(
        self,
        id: OrderId,
        side: Side,
        price: Price,
        qty: Quantity,
    )
        requires
            self.wf(),
        ensures
            match self.grid.place(price) {
                Some(level) => {
                    let fills = self.trades(id, side, level, qty).fills;
                    let full = self.side(side)[level].len() == self.depth;
                    let reply = self.limit_order_reply(id, side, price, qty);
                    &&& reply is Err <==> less_fills(qty, fills).units() > 0 && full
                    &&& reply matches Ok(answer) ==> answer == fills
                    &&& reply matches Err(error) ==> error == FixedBookError::LevelFull(
                        price,
                        self.depth,
                    )
                },
                None => self.limit_order_reply(id, side, price, qty) == Err::<
                    Seq<Fill>,
                    FixedBookError,
                >(
                    FixedBookError::PriceOutOfRange(
                        price,
                        self.grid.base,
                        self.grid.price(self.grid.levels - 1),
                    ),
                ),
            },
    {
        if let Some(level) = self.grid.place(price) {
            self.lemma_trades_orderly(id, side, level, qty, |resting: Quantity| true);
            self.lemma_found_level(price, level);
        }
    }

    /// The level of a price is one of the book.
    proof fn lemma_found_level(self, price: Price, level: int)
        requires
            self.wf(),
            self.grid.place(price) == Some(level),
        ensures
            0 <= level < self.grid.levels,
            self.bids[level].len() <= self.depth,
            self.asks[level].len() <= self.depth,
    {
        vstd::arithmetic::div_mod::lemma_div_pos_is_pos(
            self.grid.ticks(price),
            crate::decimal::UNITS_PER_ONE as int,
        );
    }

    /// A limit order at a price that has no level leaves the book as it was: the orders of both
    /// sides, the index, and with them the best prices.
    pub proof fn lemma_refused_order_changes_nothing(
        self,
        id: OrderId,
        side: Side,
        price: Price,
        qty: Quantity,
    )
        requires
            self.grid.place(price) is None,
        ensures
            self.limit_order_reply(id, side, price, qty) is Err,
            ({
                let after = self.after_limit_order(id, side, price, qty);
                &&& after.bids == self.bids
                &&& after.asks == self.asks
                &&& after.index == self.index
                &&& after.grid == self.grid
                &&& after.depth == self.depth
                &&& after.best_price(Side::Buy) == self.best_price(Side::Buy)
                &&& after.best_price(Side::Sell) == self.best_price(Side::Sell)
            }),
    {
    }

    /// What rests after a limit order is what its trades left of it. On its own side the book gains
    /// one order at most: last at the level of its price, for the quantity that came in less the
    /// quantity of each trade. It gains that order exactly where something is left and there is
    /// room. Every other place of that side stays as it was.
    pub proof fn lemma_what_is_left_rests(
        self,
        id: OrderId,
        side: Side,
        price: Price,
        level: int,
        qty: Quantity,
    )
        requires
            self.wf(),
            self.grid.place(price) == Some(level),
        ensures
            ({
                let fills = self.trades(id, side, level, qty).fills;
                let (before, after) = (
                    self.side(side),
                    self.after_limit_order(id, side, price, qty).side(side),
                );
                let left = less_fills(qty, fills);
                let place = before[level].len() as int;
                let rests = left.units() > 0 && place < self.depth;
                &&& after.len() == before.len()
                &&& forall|l: int|
                    0 <= l < before.len() && l != level ==> #[trigger] after[l] == before[l]
                &&& after[level].len() == place + (if rests {
                    1int
                } else {
                    0
                })
                &&& forall|i: int|
                    0 <= i < place ==> #[trigger] after[level][i] == before[level][i]
                &&& rests ==> {
                    &&& after[level][place].id == id
                    &&& after[level][place].live
                    &&& after[level][place].quantity == left
                }
                &&& rests && qty.valid() && exact_steps(qty, fills) ==> filled(fills)
                    + after[level][place].quantity.units() == qty.units()
            }),
    {
        self.lemma_found_level(price, level);
        self.lemma_trades_orderly(id, side, level, qty, |resting: Quantity| true);
        let fills = self.trades(id, side, level, qty).fills;
        if qty.valid() && exact_steps(qty, fills) {
            lemma_conservation(qty, fills);
        }
    }
}

/// Whether an order at place `a` is traded with before one at place `b`. A place is a level and a
/// place there. The better level comes first, and at one level the order that came first.
pub open spec fn goes_first(side: Side, a: (int, int), b: (int, int)) -> bool {
    ||| a.0 == b.0 && a.1 < b.1
    ||| match side {
        Side::Buy => a.0 > b.0,
        Side::Sell => a.0 < b.0,
    }
}

/// Whether there is an order at a place.
pub open spec fn order_at(levels: Seq<Seq<Slot>>, place: (int, int)) -> bool {
    &&& 0 <= place.0 < levels.len()
    &&& 0 <= place.1 < levels[place.0].len()
    &&& levels[place.0][place.1].live
}

/// Whether these are the places of all the orders of a side that rest at levels within reach, in
/// the order in which they are traded with.
pub open spec fn in_line(
    side: Side,
    levels: Seq<Seq<Slot>>,
    reach: spec_fn(int) -> bool,
    line: Seq<(int, int)>,
) -> bool {
    &&& forall|k: int|
        0 <= k < line.len() ==> order_at(levels, #[trigger] line[k]) && reach(line[k].0)
    &&& forall|place: (int, int)| #[trigger]
        order_at(levels, place) && reach(place.0) ==> line.contains(place)
    &&& forall|j: int, k: int|
        0 <= j < k < line.len() ==> goes_first(side, #[trigger] line[j], #[trigger] line[k])
}

/// The orders at these places.
pub open spec fn orders_at(
    grid: Grid,
    levels: Seq<Seq<Slot>>,
    line: Seq<(int, int)>,
) -> Seq<Order> {
    Seq::new(
        line.len(),
        |k: int|
            Order {
                id: levels[line[k].0][line[k].1].id,
                price: grid.price(line[k].0),
                quantity: levels[line[k].0][line[k].1].quantity,
            },
    )
}

/// What a trade makes of the place of its maker: a tombstone, where it took all of the order, and
/// otherwise the order with what is left of it.
pub open spec fn settled_place(before: Slot, fill: Fill, after: Slot) -> bool {
    &&& after.id == before.id
    &&& if fill.quantity.units() == before.quantity.units() {
        !after.live && after.quantity == before.quantity
    } else {
        after.live && after.quantity == difference(before.quantity, fill.quantity)
    }
}

/// Whether `after` is what the trades with the orders at the first places of a line make of a side:
/// those places are settled, and every other one is as it was.
pub open spec fn settled(
    levels: Seq<Seq<Slot>>,
    line: Seq<(int, int)>,
    fills: Seq<Fill>,
    after: Seq<Seq<Slot>>,
) -> bool {
    &&& after.len() == levels.len()
    &&& forall|l: int| 0 <= l < levels.len() ==> (#[trigger] after[l]).len() == levels[l].len()
    &&& forall|k: int|
        0 <= k < fills.len() ==> settled_place(
            levels[line[k].0][line[k].1],
            #[trigger] fills[k],
            after[line[k].0][line[k].1],
        )
    &&& forall|l: int, i: int|
        0 <= l < levels.len() && 0 <= i < levels[l].len() && !line.take(
            fills.len() as int,
        ).contains((l, i)) ==> #[trigger] after[l][i] == levels[l][i]
}

/// The places of the orders of one level, from place `from` on.
spec fn level_line(slots: Seq<Slot>, l: int, from: int) -> Seq<(int, int)>
    decreases slots.len() - from,
{
    if from >= slots.len() {
        seq![]
    } else {
        (if slots[from].live {
            seq![(l, from)]
        } else {
            seq![]
        }) + level_line(slots, l, from + 1)
    }
}

/// What is in that line, and in which order.
proof fn lemma_level_line(slots: Seq<Slot>, l: int, from: int)
    requires
        0 <= from,
    ensures
        ({
            let line = level_line(slots, l, from);
            &&& forall|k: int|
                0 <= k < line.len() ==> {
                    &&& (#[trigger] line[k]).0 == l
                    &&& from <= line[k].1 < slots.len()
                    &&& slots[line[k].1].live
                }
            &&& forall|j: int, k: int|
                0 <= j < k < line.len() ==> (#[trigger] line[j]).1 < (#[trigger] line[k]).1
            &&& forall|i: int|
                from <= i < slots.len() && slots[i].live ==> #[trigger] line.contains((l, i))
        }),
    decreases slots.len() - from,
{
    if from < slots.len() {
        let rest = level_line(slots, l, from + 1);
        let line = level_line(slots, l, from);
        lemma_level_line(slots, l, from + 1);
        let d: int = if slots[from].live {
            1
        } else {
            0
        };
        assert forall|k: int| d <= k < line.len() implies #[trigger] line[k] == rest[k - d] by {}
        assert forall|i: int|
            from <= i < slots.len() && slots[i].live implies #[trigger] line.contains((l, i)) by {
            if i == from {
                assert(line[0] == (l, from));
            } else {
                assert(rest.contains((l, i)));
                let k = choose|k: int| 0 <= k < rest.len() && rest[k] == (l, i);
                assert(line[k + d] == (l, i));
            }
        }
    }
}

/// That line depends on the places from `from` on only.
proof fn lemma_same_level_line(a: Seq<Slot>, b: Seq<Slot>, l: int, from: int)
    requires
        0 <= from,
        a.len() == b.len(),
        forall|i: int| from <= i < a.len() ==> (#[trigger] a[i]).live == b[i].live,
    ensures
        level_line(a, l, from) == level_line(b, l, from),
    decreases a.len() - from,
{
    if from < a.len() {
        assert(a[from].live == b[from].live);
        lemma_same_level_line(a, b, l, from + 1);
    }
}

/// The trades with a level settle the places of its line.
proof fn lemma_slots_settled(
    slots: Seq<Slot>,
    l: int,
    from: int,
    taker: OrderId,
    price: Price,
    quantity: Quantity,
)
    requires
        0 <= from,
    ensures
        ({
            let out = fill_slots(slots, from as nat, taker, price, quantity);
            let line = level_line(slots, l, from);
            &&& out.fills.len() <= line.len()
            &&& out.slots.len() == slots.len()
            &&& forall|k: int|
                0 <= k < out.fills.len() ==> settled_place(
                    slots[line[k].1],
                    #[trigger] out.fills[k],
                    out.slots[line[k].1],
                )
            &&& forall|i: int|
                0 <= i < slots.len() && !line.take(out.fills.len() as int).contains((l, i))
                    ==> #[trigger] out.slots[i] == slots[i]
        }),
    decreases slots.len() - from,
{
    let out = fill_slots(slots, from as nat, taker, price, quantity);
    let line = level_line(slots, l, from);
    lemma_level_line(slots, l, from);
    if from < slots.len() && quantity.units() > 0 {
        if !slots[from].live {
            lemma_slots_settled(slots, l, from + 1, taker, price, quantity);
            assert(line =~= level_line(slots, l, from + 1));
        } else {
            let maker = slots[from];
            let fill = fill_with(maker.id, maker.quantity, taker, price, quantity);
            let left = difference(quantity, fill.quantity);
            let next = slots.update(from, after_fill(maker, fill.quantity));
            assert(line[0] == (l, from));
            if fill.quantity.units() == maker.quantity.units() {
                let rest = fill_slots(next, (from + 1) as nat, taker, price, left);
                let others = level_line(next, l, from + 1);
                lemma_slots_settled(next, l, from + 1, taker, price, left);
                lemma_same_level_line(slots, next, l, from + 1);
                lemma_level_line(next, l, from + 1);
                let n = out.fills.len() as int;
                assert(out.slots == rest.slots);
                assert(out.fills[0] == fill);
                let front = others.take(n - 1);
                assert(out.slots[from] == next[from]) by {
                    if front.contains((l, from)) {
                        let k = choose|k: int| 0 <= k < front.len() && front[k] == (l, from);
                        assert(others[k] == (l, from));
                    }
                }
                assert forall|k: int| 0 <= k < n implies settled_place(
                    slots[line[k].1],
                    #[trigger] out.fills[k],
                    out.slots[line[k].1],
                ) by {
                    if k > 0 {
                        assert(line[k] == others[k - 1]);
                        assert(out.fills[k] == rest.fills[k - 1]);
                        assert(others[k - 1].1 >= from + 1);
                        assert(next[others[k - 1].1] == slots[line[k].1]);
                    }
                }
                assert forall|i: int|
                    0 <= i < slots.len() && !line.take(n).contains((l, i)) implies
                    #[trigger] out.slots[i] == slots[i] by {
                    assert(line.take(n)[0] == (l, from));
                    assert(i != from);
                    if front.contains((l, i)) {
                        let k = choose|k: int| 0 <= k < front.len() && front[k] == (l, i);
                        assert(line.take(n)[k + 1] == (l, i));
                    }
                }
            } else {
                assert(out.fills[0] == fill);
                assert forall|i: int|
                    0 <= i < slots.len() && !line.take(1).contains((l, i)) implies
                    #[trigger] out.slots[i] == slots[i] by {
                    assert(line.take(1)[0] == (l, from));
                }
            }
        }
    }
}

/// The orders of that line are those of the level.
proof fn lemma_level_orders(grid: Grid, levels: Seq<Seq<Slot>>, l: int, from: int)
    requires
        0 <= l < levels.len(),
        0 <= from <= levels[l].len(),
    ensures
        orders_at(grid, levels, level_line(levels[l], l, from)) == orders_of(
            levels[l].skip(from),
            grid.price(l),
        ),
    decreases levels[l].len() - from,
{
    let price = grid.price(l);
    let line = level_line(levels[l], l, from);
    if from < levels[l].len() {
        lemma_level_orders(grid, levels, l, from + 1);
        lemma_orders_from(levels[l], from, price);
        let rest = level_line(levels[l], l, from + 1);
        let orders = orders_at(grid, levels, rest);
        if levels[l][from].live {
            let order = Order { id: levels[l][from].id, price, quantity: levels[l][from].quantity };
            assert(orders_at(grid, levels, line) =~= seq![order] + orders);
        } else {
            assert(line =~= rest);
            assert(orders_of(levels[l].skip(from), price) =~= orders);
        }
    } else {
        assert(levels[l].skip(from) =~= Seq::<Slot>::empty());
        assert(orders_of(levels[l].skip(from), price) =~= orders_at(grid, levels, line));
    }
}

/// The places of the orders of a side, from level `at` as far as level `limit`.
spec fn side_line(side: Side, levels: Seq<Seq<Slot>>, at: int, limit: int) -> Seq<(int, int)>
    decreases
            (match side {
                Side::Buy => at + 1,
                Side::Sell => levels.len() - at,
            }),
{
    if !(0 <= at < levels.len()) || beats(side, limit, at) {
        seq![]
    } else {
        level_line(levels[at], at, 0) + side_line(side, levels, next_level(side, at), limit)
    }
}

/// What is in that line, and in which order.
proof fn lemma_side_line(side: Side, levels: Seq<Seq<Slot>>, at: int, limit: int)
    requires
        match side {
            Side::Buy => at < levels.len(),
            Side::Sell => 0 <= at,
        },
    ensures
        ({
            let line = side_line(side, levels, at, limit);
            &&& forall|k: int|
                0 <= k < line.len() ==> {
                    &&& order_at(levels, #[trigger] line[k])
                    &&& !beats(side, line[k].0, at)
                    &&& !beats(side, limit, line[k].0)
                }
            &&& forall|j: int, k: int|
                0 <= j < k < line.len() ==> goes_first(side, #[trigger] line[j], #[trigger] line[k])
            &&& forall|place: (int, int)| #[trigger]
                order_at(levels, place) && !beats(side, place.0, at) && !beats(side, limit, place.0)
                    ==> line.contains(place)
        }),
    decreases
            (match side {
                Side::Buy => at + 1,
                Side::Sell => levels.len() - at,
            }),
{
    if !(!(0 <= at < levels.len()) || beats(side, limit, at)) {
        let here = level_line(levels[at], at, 0);
        let rest = side_line(side, levels, next_level(side, at), limit);
        let line = side_line(side, levels, at, limit);
        let n = here.len() as int;
        lemma_level_line(levels[at], at, 0);
        lemma_side_line(side, levels, next_level(side, at), limit);
        assert forall|k: int| 0 <= k < n implies #[trigger] line[k] == here[k] by {}
        assert forall|k: int| n <= k < line.len() implies #[trigger] line[k] == rest[k - n] by {}
        assert forall|j: int, k: int| 0 <= j < k < line.len() implies goes_first(
            side,
            #[trigger] line[j],
            #[trigger] line[k],
        ) by {
            if k < n {
                assert(here[j].1 < here[k].1);
            } else if j < n {
                assert(!beats(side, rest[k - n].0, next_level(side, at)));
            } else {
                assert(goes_first(side, rest[j - n], rest[k - n]));
            }
        }
        assert forall|place: (int, int)| #[trigger]
            order_at(levels, place) && !beats(side, place.0, at) && !beats(
                side,
                limit,
                place.0,
            ) implies line.contains(place) by {
            if place.0 == at {
                assert(here.contains((at, place.1)));
                let k = choose|k: int| 0 <= k < here.len() && here[k] == (at, place.1);
                assert(line[k] == place);
            } else {
                assert(rest.contains(place));
                let k = choose|k: int| 0 <= k < rest.len() && rest[k] == place;
                assert(line[k + n] == place);
            }
        }
    }
}

/// That line depends on the levels from `at` on only.
proof fn lemma_same_side_line(
    side: Side,
    a: Seq<Seq<Slot>>,
    b: Seq<Seq<Slot>>,
    at: int,
    limit: int,
)
    requires
        a.len() == b.len(),
        forall|l: int| 0 <= l < a.len() && !beats(side, l, at) ==> #[trigger] a[l] == b[l],
    ensures
        side_line(side, a, at, limit) == side_line(side, b, at, limit),
    decreases
            (match side {
                Side::Buy => at + 1,
                Side::Sell => a.len() - at,
            }),
{
    if !(!(0 <= at < a.len()) || beats(side, limit, at)) {
        lemma_same_side_line(side, a, b, next_level(side, at), limit);
        assert(a[at] == b[at]);
    }
}

/// The trades with a level serve its line.
proof fn lemma_level_served(
    grid: Grid,
    levels: Seq<Seq<Slot>>,
    at: int,
    taker: OrderId,
    quantity: Quantity,
)
    requires
        0 <= at < levels.len(),
    ensures
        ({
            let here = fill_slots(levels[at], 0, taker, grid.price(at), quantity);
            let orders = orders_at(grid, levels, level_line(levels[at], at, 0));
            &&& served(orders, taker, quantity, here.fills)
            &&& used_up(orders, here.fills, here.retired)
            &&& here.remaining == less_fills(quantity, here.fills)
        }),
{
    let price = grid.price(at);
    let queue = orders_of(levels[at], price);
    lemma_tombstones_make_no_difference(levels[at], 0, taker, price, quantity);
    assert(levels[at].skip(0) =~= levels[at]);
    lemma_queue_served(queue, taker, price, quantity);
    assert(at_price(queue, price) =~= queue);
    lemma_level_orders(grid, levels, at, 0);
}

/// The orders of the levels behind level `at`, whatever is done to that one.
proof fn lemma_orders_behind(
    grid: Grid,
    side: Side,
    levels: Seq<Seq<Slot>>,
    at: int,
    limit: int,
    slots: Seq<Slot>,
)
    requires
        0 <= at < levels.len(),
    ensures
        ({
            let next = levels.update(at, slots);
            let front = level_line(levels[at], at, 0);
            let back = side_line(side, levels, next_level(side, at), limit);
            &&& side_line(side, next, next_level(side, at), limit) == back
            &&& orders_at(grid, next, back) == orders_at(grid, levels, back)
            &&& orders_at(grid, levels, front + back) == orders_at(grid, levels, front) + orders_at(
                grid,
                levels,
                back,
            )
            &&& forall|k: int|
                0 <= k < back.len() ==> (#[trigger] back[k]).0 != at && order_at(levels, back[k])
        }),
{
    let next = levels.update(at, slots);
    let after = next_level(side, at);
    let front = level_line(levels[at], at, 0);
    let back = side_line(side, levels, after, limit);
    lemma_side_line(side, levels, after, limit);
    lemma_same_side_line(side, levels, next, after, limit);
    assert forall|k: int| 0 <= k < back.len() implies (#[trigger] back[k]).0 != at
        && next[back[k].0] == levels[back[k].0] by {
        assert(!beats(side, back[k].0, after));
    }
    assert(orders_at(grid, next, back) =~= orders_at(grid, levels, back));
    assert(orders_at(grid, levels, front + back) =~= orders_at(grid, levels, front) + orders_at(
        grid,
        levels,
        back,
    ));
}

/// The trades with a side serve its line.
proof fn lemma_side_served(
    grid: Grid,
    side: Side,
    levels: Seq<Seq<Slot>>,
    at: int,
    limit: int,
    taker: OrderId,
    quantity: Quantity,
)
    ensures
        ({
            let out = sweep_levels(grid, side, levels, at, limit, taker, quantity);
            let orders = orders_at(grid, levels, side_line(side, levels, at, limit));
            &&& served(orders, taker, quantity, out.fills)
            &&& used_up(orders, out.fills, out.retired)
            &&& out.remaining == less_fills(quantity, out.fills)
        }),
    decreases
            (match side {
                Side::Buy => at + 1,
                Side::Sell => levels.len() - at,
            }),
{
    if !(quantity.units() <= 0 || !(0 <= at < levels.len()) || beats(side, limit, at)) {
        let here = fill_slots(levels[at], 0, taker, grid.price(at), quantity);
        let next = levels.update(at, here.slots);
        let after = next_level(side, at);
        let rest = sweep_levels(grid, side, next, after, limit, taker, here.remaining);
        let front = orders_at(grid, levels, level_line(levels[at], at, 0));
        let back = orders_at(grid, levels, side_line(side, levels, after, limit));
        lemma_level_served(grid, levels, at, taker, quantity);
        lemma_orders_behind(grid, side, levels, at, limit, here.slots);
        lemma_side_served(grid, side, next, after, limit, taker, here.remaining);
        lemma_served_concat(
            front,
            back,
            taker,
            quantity,
            here.fills,
            rest.fills,
            here.retired,
            rest.retired,
        );
        crate::matching::lemma_less_fills_concat(quantity, here.fills, rest.fills);
    }
}

/// The trades with a side settle the places of its line.
proof fn lemma_side_settled(
    grid: Grid,
    side: Side,
    levels: Seq<Seq<Slot>>,
    at: int,
    limit: int,
    taker: OrderId,
    quantity: Quantity,
)
    ensures
        ({
            let out = sweep_levels(grid, side, levels, at, limit, taker, quantity);
            settled(levels, side_line(side, levels, at, limit), out.fills, out.levels)
        }),
    decreases
            (match side {
                Side::Buy => at + 1,
                Side::Sell => levels.len() - at,
            }),
{
    if !(quantity.units() <= 0 || !(0 <= at < levels.len()) || beats(side, limit, at)) {
        let price = grid.price(at);
        let here = fill_slots(levels[at], 0, taker, price, quantity);
        let next = levels.update(at, here.slots);
        let after = next_level(side, at);
        let rest = sweep_levels(grid, side, next, after, limit, taker, here.remaining);
        let front = level_line(levels[at], at, 0);
        let back = side_line(side, levels, after, limit);
        lemma_level_served(grid, levels, at, taker, quantity);
        lemma_orders_behind(grid, side, levels, at, limit, here.slots);
        lemma_side_served(grid, side, next, after, limit, taker, here.remaining);
        lemma_side_settled(grid, side, next, after, limit, taker, here.remaining);
        lemma_slots_settled(levels[at], at, 0, taker, price, quantity);
        lemma_level_line(levels[at], at, 0);
        if rest.fills.len() > 0 {
            assert(here.remaining.units() > 0);
        }
        lemma_settled_further(
            levels,
            front,
            back,
            here.fills,
            rest.fills,
            at,
            here.slots,
            rest.levels,
        );
    }
}

/// Settling a level and then those behind it settles them all.
proof fn lemma_settled_further(
    levels: Seq<Seq<Slot>>,
    front: Seq<(int, int)>,
    back: Seq<(int, int)>,
    x: Seq<Fill>,
    y: Seq<Fill>,
    at: int,
    slots: Seq<Slot>,
    after: Seq<Seq<Slot>>,
)
    requires
        0 <= at < levels.len(),
        x.len() <= front.len(),
        y.len() <= back.len(),
        y.len() > 0 ==> x.len() == front.len(),
        slots.len() == levels[at].len(),
        forall|k: int|
            0 <= k < front.len() ==> (#[trigger] front[k]).0 == at && 0 <= front[k].1
                < levels[at].len(),
        forall|k: int|
            0 <= k < back.len() ==> (#[trigger] back[k]).0 != at && order_at(levels, back[k]),
        forall|k: int|
            0 <= k < x.len() ==> settled_place(
                levels[at][front[k].1],
                #[trigger] x[k],
                slots[front[k].1],
            ),
        forall|i: int|
            0 <= i < levels[at].len() && !front.take(x.len() as int).contains((at, i)) ==> #[trigger]
            slots[i] == levels[at][i],
        settled(levels.update(at, slots), back, y, after),
    ensures
        settled(levels, front + back, x + y, after),
{
    let next = levels.update(at, slots);
    let (line, fills) = (front + back, x + y);
    let n = fills.len() as int;
    let (head, tail) = (front.take(x.len() as int), back.take(y.len() as int));
    assert(line.take(n) =~= head + tail);
    assert forall|i: int| 0 <= i < levels[at].len() implies #[trigger] after[at][i] == slots[i] by {
        if tail.contains((at, i)) {
            let k = choose|k: int| 0 <= k < tail.len() && tail[k] == (at, i);
            assert(back[k].0 != at);
        }
        assert(next[at][i] == slots[i]);
    }
    assert forall|k: int| 0 <= k < n implies settled_place(
        levels[line[k].0][line[k].1],
        #[trigger] fills[k],
        after[line[k].0][line[k].1],
    ) by {
        if k < x.len() {
            assert(fills[k] == x[k] && line[k] == front[k]);
        } else {
            let j = k - x.len();
            assert(fills[k] == y[j] && line[k] == back[j]);
        }
    }
    assert forall|l: int, i: int|
        0 <= l < levels.len() && 0 <= i < levels[l].len() && !line.take(n).contains(
            (l, i),
        ) implies #[trigger] after[l][i] == levels[l][i] by {
        if head.contains((l, i)) {
            let k = choose|k: int| 0 <= k < head.len() && head[k] == (l, i);
            assert((head + tail)[k] == (l, i));
        }
        if tail.contains((l, i)) {
            let k = choose|k: int| 0 <= k < tail.len() && tail[k] == (l, i);
            assert((head + tail)[k + head.len()] == (l, i));
        }
        if l != at {
            assert(next[l][i] == levels[l][i]);
        }
    }
    assert forall|l: int| 0 <= l < levels.len() implies (#[trigger] after[l]).len()
        == levels[l].len() by {
        assert(after[l].len() == next[l].len());
    }
}

/// Where no order rests, nobody stands in line and nothing is traded.
proof fn lemma_nobody_in_line(
    grid: Grid,
    side: Side,
    levels: Seq<Seq<Slot>>,
    reach: spec_fn(int) -> bool,
    taker: OrderId,
    quantity: Quantity,
)
    requires
        forall|l: int| 0 <= l < levels.len() ==> !any_live(#[trigger] levels[l]),
    ensures
        in_line(side, levels, reach, seq![]),
        served(orders_at(grid, levels, seq![]), taker, quantity, seq![]),
        used_up(orders_at(grid, levels, seq![]), seq![], seq![]),
        settled(levels, seq![], seq![], levels),
{
    assert forall|place: (int, int)| !#[trigger] order_at(levels, place) by {
        if order_at(levels, place) {
            assert(levels[place.0][place.1].live);
            assert(any_live(levels[place.0]));
        }
    }
}

/// The line from the best level on has every order within reach.
proof fn lemma_reach_in_line(side: Side, levels: Seq<Seq<Slot>>, at: int, limit: int)
    requires
        is_best_level(opposite(side), levels, at),
    ensures
        in_line(
            opposite(side),
            levels,
            up_to(side, limit),
            side_line(opposite(side), levels, at, limit),
        ),
{
    let facing = opposite(side);
    let line = side_line(facing, levels, at, limit);
    lemma_side_line(facing, levels, at, limit);
    assert forall|place: (int, int)| #[trigger]
        order_at(levels, place) && up_to(side, limit)(place.0) implies line.contains(place) by {
        assert(levels[place.0][place.1].live);
        assert(any_live(levels[place.0]));
    }
}

/// The levels that an order with a limit trades with.
pub open spec fn up_to(side: Side, limit: int) -> spec_fn(int) -> bool {
    |l: int|
        match side {
            Side::Buy => l <= limit,
            Side::Sell => l >= limit,
        }
}

/// All levels.
pub open spec fn everywhere() -> spec_fn(int) -> bool {
    |l: int| true
}

impl FixedState {
    /// The trades of an order serve the orders of the other side as they stand in line, as far as
    /// the limit reaches, and settle their places. The index loses the orders that are used up.
    /// Nothing else changes. Returns the line.
    pub proof fn lemma_trades_serve(self, id: OrderId, side: Side, limit: int, qty: Quantity) -> (
        line: Seq<(int, int)>)
        ensures
            ({
                let facing = opposite(side);
                let fills = self.trades(id, side, limit, qty).fills;
                let after = self.after_trades(id, side, limit, qty);
                let orders = orders_at(self.grid, self.side(facing), line);
                &&& in_line(facing, self.side(facing), up_to(side, limit), line)
                &&& served(orders, id, qty, fills)
                &&& settled(self.side(facing), line, fills, after.side(facing))
                &&& loses_used_up(self.index, orders, fills, after.index)
                &&& after.side(side) == self.side(side)
                &&& after.grid == self.grid
                &&& after.depth == self.depth
                &&& self.trades(id, side, limit, qty).remaining == less_fills(qty, fills)
            }),
    {
        let facing = opposite(side);
        let levels = self.side(facing);
        let out = self.trades(id, side, limit, qty);
        let after = self.after_trades(id, side, limit, qty);
        assert(after.side(facing) == out.levels);
        assert(after.index == without(self.index, out.retired));
        let line = match best_level(facing, levels) {
            Some(at) => {
                lemma_reach_in_line(side, levels, at, limit);
                lemma_side_served(self.grid, facing, levels, at, limit, id, qty);
                lemma_side_settled(self.grid, facing, levels, at, limit, id, qty);
                side_line(facing, levels, at, limit)
            },
            None => {
                assert forall|l: int| 0 <= l < levels.len() implies !any_live(
                    #[trigger] levels[l],
                ) by {
                    if any_live(levels[l]) {
                        self.lemma_best_level_is_best(facing, l);
                    }
                }
                lemma_nobody_in_line(self.grid, facing, levels, up_to(side, limit), id, qty);
                seq![]
            },
        };
        lemma_loses_used_up(
            self.index,
            orders_at(self.grid, levels, line),
            out.fills,
            out.retired,
        );
        line
    }

    /// All that a limit order does. It is answered with its trades. These serve the orders of the
    /// other side as they stand in line, as far as its level, and settle their places. What they
    /// leave of it comes last at its level, where there is room, and is found in the index. Returns
    /// the line.
    pub proof fn lemma_limit_order_effect(
        self,
        id: OrderId,
        side: Side,
        price: Price,
        level: int,
        qty: Quantity,
    ) -> (line: Seq<(int, int)>)
        requires
            self.wf(),
            self.grid.place(price) == Some(level),
        ensures
            ({
                let facing = opposite(side);
                let fills = self.trades(id, side, level, qty).fills;
                let reply = self.limit_order_reply(id, side, price, qty);
                let after = self.after_limit_order(id, side, price, qty);
                let orders = orders_at(self.grid, self.side(facing), line);
                let place = self.side(side)[level].len() as int;
                let left = less_fills(qty, fills);
                let rests = left.units() > 0 && place < self.depth;
                &&& in_line(facing, self.side(facing), up_to(side, level), line)
                &&& served(orders, id, qty, fills)
                &&& left.units() <= 0 || rests ==> reply == Ok::<Seq<Fill>, FixedBookError>(fills)
                &&& left.units() > 0 && !rests ==> reply == Err::<Seq<Fill>, FixedBookError>(
                    FixedBookError::LevelFull(price, self.depth),
                )
                &&& settled(self.side(facing), line, fills, after.side(facing))
                &&& rests ==> {
                    &&& after.side(side) == self.side(side).update(
                        level,
                        self.side(side)[level].push(Slot { id, quantity: left, live: true }),
                    )
                    &&& after.index.contains_key(id)
                    &&& after.index[id].0 == side
                    &&& after.index[id].1 == level
                    &&& place < MAX_SLOTS ==> after.index[id].2 == place
                    &&& loses_used_up(
                        self.index.remove(id),
                        orders,
                        fills,
                        after.index.remove(id),
                    )
                }
                &&& !rests ==> {
                    &&& after.side(side) == self.side(side)
                    &&& loses_used_up(self.index, orders, fills, after.index)
                }
                &&& after.grid == self.grid
                &&& after.depth == self.depth
            }),
    {
        self.lemma_found_level(price, level);
        let line = self.lemma_trades_serve(id, side, level, qty);
        let traded = self.after_trades(id, side, level, qty);
        let after = self.after_limit_order(id, side, price, qty);
        let fills = self.trades(id, side, level, qty).fills;
        let orders = orders_at(self.grid, self.side(opposite(side)), line);
        let queue = self.side(side)[level];
        if less_fills(qty, fills).units() > 0 && queue.len() < self.depth {
            assert(level as usize == level);
            assert(after.index.remove(id) =~= traded.index.remove(id));
            lemma_loses_others(self.index, orders, fills, traded.index, id);
        }
        line
    }

    /// All that a market order does. Its trades serve every order of the other side as they stand
    /// in line, and settle their places. What they leave of it is dropped. Returns the line.
    pub proof fn lemma_market_order_effect(self, id: OrderId, side: Side, qty: Quantity) -> (
        line: Seq<(int, int)>)
        requires
            self.wf(),
        ensures
            ({
                let facing = opposite(side);
                let limit = self.market_limit(side);
                let fills = self.trades(id, side, limit, qty).fills;
                let after = self.after_trades(id, side, limit, qty);
                let orders = orders_at(self.grid, self.side(facing), line);
                &&& in_line(facing, self.side(facing), everywhere(), line)
                &&& served(orders, id, qty, fills)
                &&& settled(self.side(facing), line, fills, after.side(facing))
                &&& loses_used_up(self.index, orders, fills, after.index)
                &&& after.side(side) == self.side(side)
                &&& after.grid == self.grid
                &&& after.depth == self.depth
            }),
    {
        let line = self.lemma_trades_serve(id, side, self.market_limit(side), qty);
        let levels = self.side(opposite(side));
        assert forall|place: (int, int)| #[trigger] order_at(levels, place) implies line.contains(
            place,
        ) by {
            assert(up_to(side, self.market_limit(side))(place.0));
        }
        line
    }

    /// Cancelling gives up one place and changes nothing else: the place keeps its id and quantity,
    /// but no order rests there. The index loses that id.
    pub proof fn lemma_cancel_gives_up_one(self, id: OrderId)
        requires
            self.index.contains_key(id),
            self.occupied(self.index[id]),
        ensures
            ({
                let (side, level, slot) = self.index[id];
                let after = self.after_cancel(id);
                let (before, now) = (self.side(side), after.side(side));
                &&& after.side(opposite(side)) == self.side(opposite(side))
                &&& now.len() == before.len()
                &&& forall|l: int|
                    0 <= l < before.len() ==> (#[trigger] now[l]).len() == before[l].len()
                &&& forall|l: int, i: int|
                    0 <= l < before.len() && 0 <= i < before[l].len() ==> {
                        &&& (#[trigger] now[l][i]).id == before[l][i].id
                        &&& now[l][i].quantity == before[l][i].quantity
                        &&& now[l][i].live == (before[l][i].live && !(l == level && i == slot))
                    }
                &&& !after.index.contains_key(id)
                &&& forall|x: OrderId|
                    x != id ==> (#[trigger] after.index.contains_key(x)
                        <==> self.index.contains_key(x))
                &&& forall|x: OrderId|
                    x != id && #[trigger] after.index.contains_key(x) ==> after.index[x]
                        == self.index[x]
                &&& after.grid == self.grid
                &&& after.depth == self.depth
            }),
    {
    }

    /// Cancelling an order that the index does not have changes nothing.
    pub proof fn lemma_failed_cancel_changes_nothing(self, id: OrderId)
        requires
            !self.index.contains_key(id),
        ensures
            self.after_cancel(id) == self,
    {
    }

    /// Compacting a level leaves the orders that rest there, in their order and at the first places,
    /// and changes no other level. Returns the place that each of them had.
    pub proof fn lemma_compaction_effect(self, side: Side, level: int) -> (from: Seq<int>)
        requires
            0 <= level < self.side(side).len(),
        ensures
            ({
                let after = self.after_compaction(side, level);
                let (before, now) = (self.side(side)[level], after.side(side)[level]);
                &&& now.len() == from.len()
                &&& forall|k: int|
                    0 <= k < from.len() ==> {
                        &&& 0 <= #[trigger] from[k] < before.len()
                        &&& before[from[k]].live
                        &&& now[k] == before[from[k]]
                    }
                &&& forall|j: int, k: int|
                    0 <= j < k < from.len() ==> #[trigger] from[j] < #[trigger] from[k]
                &&& forall|i: int|
                    0 <= i < before.len() && (#[trigger] before[i]).live ==> from.contains(i)
                &&& forall|l: int|
                    0 <= l < self.side(side).len() && l != level ==> #[trigger] after.side(side)[l]
                        == self.side(side)[l]
                &&& after.side(side).len() == self.side(side).len()
                &&& after.side(opposite(side)) == self.side(opposite(side))
                &&& renewed(self.index, now, after.index)
                &&& after.grid == self.grid
                &&& after.depth == self.depth
            }),
    {
        let now = self.after_compaction(side, level).side(side)[level];
        lemma_renewed(self.index, now);
        lemma_places_of_live(self.side(side)[level])
    }

    /// A book without orders has none, and no place of it is taken.
    pub proof fn lemma_blank(grid: Grid, depth: usize)
        ensures
            ({
                let book = FixedState::blank(grid, depth);
                &&& book.bids.len() == grid.levels
                &&& book.asks.len() == grid.levels
                &&& forall|l: int| 0 <= l < grid.levels ==> (#[trigger] book.bids[l]).len() == 0
                &&& forall|l: int| 0 <= l < grid.levels ==> (#[trigger] book.asks[l]).len() == 0
                &&& forall|x: OrderId| !#[trigger] book.index.contains_key(x)
                &&& book.grid == grid
                &&& book.depth == depth
            }),
    {
    }
}

/// Whether an index is renewed for the places of a level: each id that one of them holds is entered
/// with the last such place. No entry is made or taken out, and the others are as they were.
pub open spec fn renewed(
    before: Map<OrderId, Location>,
    slots: Seq<Slot>,
    after: Map<OrderId, Location>,
) -> bool {
    &&& forall|id: OrderId| #[trigger] after.contains_key(id) <==> before.contains_key(id)
    &&& forall|id: OrderId| #[trigger]
        after.contains_key(id) ==> after[id].0 == before[id].0 && after[id].1 == before[id].1
    &&& forall|id: OrderId| #[trigger]
        after.contains_key(id) && !holds(slots, id) ==> after[id].2 == before[id].2
    &&& forall|id: OrderId, k: int|
        after.contains_key(id) && #[trigger] holds_last(slots, id, k) && k < MAX_SLOTS
            ==> after[id].2 == k
}

/// Whether a place holds this id.
pub open spec fn holds(slots: Seq<Slot>, id: OrderId) -> bool {
    exists|k: int| 0 <= k < slots.len() && (#[trigger] slots[k]).id == id
}

/// Whether place `k` is the last that holds this id.
pub open spec fn holds_last(slots: Seq<Slot>, id: OrderId, k: int) -> bool {
    &&& 0 <= k < slots.len()
    &&& slots[k].id == id
    &&& forall|j: int| k < j < slots.len() ==> (#[trigger] slots[j]).id != id
}

proof fn lemma_renewed(index: Map<OrderId, Location>, slots: Seq<Slot>)
    ensures
        renewed(index, slots, renumbered(index, slots)),
{
    let after = renumbered(index, slots);
    assert forall|id: OrderId| #[trigger]
        after.contains_key(id) && !holds(slots, id) implies after[id].2 == index[id].2 by {
        lemma_last_of(slots, id);
    }
    assert forall|id: OrderId, k: int|
        after.contains_key(id) && #[trigger] holds_last(slots, id, k) && k
            < MAX_SLOTS implies after[id].2 == k by {
        lemma_last_of(slots, id);
        let p = last_place(slots, id)->0;
        assert(slots[k].id == id && slots[p].id == id);
    }
}

/// The last place that holds an id, where one does.
proof fn lemma_last_of(slots: Seq<Slot>, id: OrderId)
    ensures
        match last_place(slots, id) {
            Some(k) => 0 <= k < slots.len() && slots[k].id == id && forall|j: int|
                k < j < slots.len() ==> (#[trigger] slots[j]).id != id,
            None => forall|j: int| 0 <= j < slots.len() ==> (#[trigger] slots[j]).id != id,
        },
    decreases slots.len(),
{
    if slots.len() > 0 && slots.last().id != id {
        let shorter = slots.drop_last();
        lemma_last_of(shorter, id);
        assert forall|j: int| 0 <= j < shorter.len() implies #[trigger] slots[j] == shorter[j] by {}
    }
}

/// The places of the orders that are kept where the tombstones are left out.
proof fn lemma_places_of_live(slots: Seq<Slot>) -> (from: Seq<int>)
    ensures
        from.len() == live_only(slots).len(),
        forall|k: int|
            0 <= k < from.len() ==> {
                &&& 0 <= #[trigger] from[k] < slots.len()
                &&& slots[from[k]].live
                &&& live_only(slots)[k] == slots[from[k]]
            },
        forall|j: int, k: int|
            0 <= j < k < from.len() ==> #[trigger] from[j] < #[trigger] from[k],
        forall|i: int| 0 <= i < slots.len() && (#[trigger] slots[i]).live ==> from.contains(i),
    decreases slots.len(),
{
    if slots.len() == 0 {
        seq![]
    } else {
        let shorter = slots.drop_last();
        let rest = lemma_places_of_live(shorter);
        let last = slots.len() - 1;
        let from = if slots.last().live {
            rest.push(last)
        } else {
            rest
        };
        assert forall|k: int| 0 <= k < from.len() implies {
            &&& 0 <= #[trigger] from[k] < slots.len()
            &&& slots[from[k]].live
            &&& live_only(slots)[k] == slots[from[k]]
        } by {
            if k < rest.len() {
                assert(rest[k] == from[k]);
                assert(shorter[rest[k]] == slots[rest[k]]);
            }
        }
        assert forall|j: int, k: int| 0 <= j < k < from.len() implies #[trigger] from[j]
            < #[trigger] from[k] by {
            assert(rest[j] == from[j]);
            if k < rest.len() {
                assert(rest[k] == from[k]);
            }
        }
        assert forall|i: int| 0 <= i < slots.len() && (#[trigger] slots[i]).live implies
            from.contains(i) by {
            if i < last {
                assert(shorter[i].live);
                let k = choose|k: int| 0 <= k < rest.len() && rest[k] == i;
                assert(from[k] == i);
            } else {
                assert(from[rest.len() as int] == i);
            }
        }
        from
    }
}

} // verus!
