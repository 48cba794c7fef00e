//! One side of a book with fixed capacity: its levels, lowest price first.
use crate::grid::Grid;
use crate::ring_level::{any_live, Slot};
use crate::slots::{fill_slots, slots_wf};
use crate::types::{Fill, OrderId, Quantity, Side};
use vstd::prelude::*;

verus! {

/// Whether level `a` has a better price than level `b`: the buyers' best is the highest, the
/// sellers' the lowest.
pub open spec fn beats(side: Side, a: int, b: int) -> bool {
    match side {
        Side::Buy => a > b,
        Side::Sell => a < b,
    }
}

/// Whether `best` is the best of the levels at which an order rests.
pub open spec fn is_best_level(side: Side, levels: Seq<Seq<Slot>>, best: int) -> bool {
    &&& 0 <= best < levels.len()
    &&& any_live(levels[best])
    &&& forall|i: int|
        0 <= i < levels.len() && any_live(#[trigger] levels[i]) ==> !beats(side, i, best)
}

/// Whether no order rests at any level.
pub open spec fn no_orders(levels: Seq<Seq<Slot>>) -> bool {
    forall|i: int| 0 <= i < levels.len() ==> !any_live(#[trigger] levels[i])
}

/// Whether no price at which an order rests has to round.
pub open spec fn exact_at_orders(grid: Grid, levels: Seq<Seq<Slot>>) -> bool {
    forall|l: int| 0 <= l < levels.len() && any_live(#[trigger] levels[l]) ==> grid.exact(l)
}

/// The best of the levels at which an order rests, where there is one.
pub open spec fn best_level(side: Side, levels: Seq<Seq<Slot>>) -> Option<int> {
    if exists|best: int| is_best_level(side, levels, best) {
        Some(choose|best: int| is_best_level(side, levels, best))
    } else {
        None
    }
}

/// There is at most one best level.
pub proof fn lemma_best_level(side: Side, levels: Seq<Seq<Slot>>, best: int)
    requires
        is_best_level(side, levels, best),
    ensures
        best_level(side, levels) == Some(best),
{
    let other = choose|other: int| is_best_level(side, levels, other);
    assert(any_live(levels[other]) && any_live(levels[best]));
}

/// Where no order rests there is no best level.
pub proof fn lemma_no_best_level(side: Side, levels: Seq<Seq<Slot>>)
    requires
        no_orders(levels),
    ensures
        best_level(side, levels) is None,
{
}

/// The level that comes after level `at` for an incoming order.
pub open spec fn next_level(side: Side, at: int) -> int {
    match side {
        Side::Buy => at - 1,
        Side::Sell => at + 1,
    }
}

/// Every order that rests has something left to trade.
pub open spec fn levels_wf(levels: Seq<Seq<Slot>>) -> bool {
    forall|i: int| 0 <= i < levels.len() ==> slots_wf(#[trigger] levels[i])
}

/// What comes of a trade with one side of a book.
pub struct LevelsOutcome {
    /// The trades, in the order in which they were made.
    pub fills: Seq<Fill>,
    /// The orders that were filled whole, in the order in which they were filled.
    pub retired: Seq<OrderId>,
    /// What is left of the incoming order.
    pub remaining: Quantity,
    /// What is left of the side.
    pub levels: Seq<Seq<Slot>>,
}

/// Trades `quantity` with the levels from `at` on, as far as level `limit`.
pub open spec fn sweep_levels(
    grid: Grid,
    side: Side,
    levels: Seq<Seq<Slot>>,
    at: int,
    limit: int,
    taker: OrderId,
    quantity: Quantity,
) -> LevelsOutcome
    decreases
            (match side {
                Side::Buy => at + 1,
                Side::Sell => levels.len() - at,
            }),
{
    if quantity.units() <= 0 || !(0 <= at < levels.len()) || beats(side, limit, at) {
        LevelsOutcome { fills: seq![], retired: seq![], remaining: quantity, levels }
    } else {
        let here = fill_slots(levels[at], 0, taker, grid.price(at), quantity);
        let rest = sweep_levels(
            grid,
            side,
            levels.update(at, here.slots),
            next_level(side, at),
            limit,
            taker,
            here.remaining,
        );
        LevelsOutcome {
            fills: here.fills + rest.fills,
            retired: here.retired + rest.retired,
            remaining: rest.remaining,
            levels: rest.levels,
        }
    }
}

/// Whether the price of each level that `sweep_levels` comes to can be computed.
pub open spec fn sweep_priced(
    grid: Grid,
    side: Side,
    levels: Seq<Seq<Slot>>,
    at: int,
    limit: int,
    taker: OrderId,
    quantity: Quantity,
) -> bool
    decreases
            (match side {
                Side::Buy => at + 1,
                Side::Sell => levels.len() - at,
            }),
{
    if quantity.units() <= 0 || !(0 <= at < levels.len()) || beats(side, limit, at) {
        true
    } else {
        let here = fill_slots(levels[at], 0, taker, grid.price(at), quantity);
        &&& grid.priced(at)
        &&& sweep_priced(
            grid,
            side,
            levels.update(at, here.slots),
            next_level(side, at),
            limit,
            taker,
            here.remaining,
        )
    }
}

/// Trades `quantity` with the levels of a side, best first, as far as level `limit`.
pub open spec fn trade_levels(
    grid: Grid,
    side: Side,
    levels: Seq<Seq<Slot>>,
    limit: int,
    taker: OrderId,
    quantity: Quantity,
) -> LevelsOutcome {
    match best_level(side, levels) {
        Some(best) => sweep_levels(grid, side, levels, best, limit, taker, quantity),
        None => LevelsOutcome { fills: seq![], retired: seq![], remaining: quantity, levels },
    }
}

/// Whether the price of each level that `trade_levels` comes to can be computed.
pub open spec fn trade_priced(
    grid: Grid,
    side: Side,
    levels: Seq<Seq<Slot>>,
    limit: int,
    taker: OrderId,
    quantity: Quantity,
) -> bool {
    match best_level(side, levels) {
        Some(best) => sweep_priced(grid, side, levels, best, limit, taker, quantity),
        None => true,
    }
}

/// Where the price of every level can be computed, so can those that `sweep_levels` comes to.
pub proof fn lemma_sweep_priced(
    grid: Grid,
    side: Side,
    levels: Seq<Seq<Slot>>,
    at: int,
    limit: int,
    taker: OrderId,
    quantity: Quantity,
)
    requires
        forall|i: int| 0 <= i < levels.len() ==> #[trigger] grid.priced(i),
    ensures
        sweep_priced(grid, side, levels, at, limit, taker, quantity),
    decreases
            (match side {
                Side::Buy => at + 1,
                Side::Sell => levels.len() - at,
            }),
{
    if !(quantity.units() <= 0 || !(0 <= at < levels.len()) || beats(side, limit, at)) {
        let here = fill_slots(levels[at], 0, taker, grid.price(at), quantity);
        lemma_sweep_priced(
            grid,
            side,
            levels.update(at, here.slots),
            next_level(side, at),
            limit,
            taker,
            here.remaining,
        );
    }
}

} // verus!
