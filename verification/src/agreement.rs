//! The two books agree: where they hold the same orders, they trade alike.
use crate::decimal::{
    difference, lemma_of_signed, lemma_one_is_pow10, lemma_units_bound, MAX_COEFFICIENT,
};
use crate::fixed_book_laws::{
    lemma_all_live, lemma_live_only_tombstone, lemma_no_slot_fills, lemma_slots_used_up,
    lemma_tombstones_make_no_difference, orders_of,
};
use crate::fixed_state::{tombstone, FixedState};
use crate::grid::Grid;
use crate::ladder::{
    ahead, best, best_price, is_best, is_best_with_orders, is_first_of, lemma_one_best,
    lemma_one_best_with_orders, lemma_rank_order, rank, removed, sweep, Level, Rank,
};
use crate::levels::{
    beats, best_level, exact_at_orders, is_best_level, next_level, sweep_levels,
};
use crate::matching::{fill_queue, fill_with};
use crate::order::Order;
use crate::orderbook::{opposite, BookState};
use crate::ring_level::{any_live, lemma_live_only, live_only, Slot};
use crate::slots::fill_slots;
use crate::types::{Fill, OrderId, Price, Quantity, Side};
use vstd::prelude::*;

verus! {

/// Whether two runs of trades are the same, the prices compared by value.
pub open spec fn same_fills(a: Seq<Fill>, b: Seq<Fill>) -> bool {
    &&& a.len() == b.len()
    &&& forall|i: int|
        #![trigger a[i]]
        #![trigger b[i]]
        0 <= i < a.len() ==> {
            &&& a[i].maker_order_id == b[i].maker_order_id
            &&& a[i].taker_order_id == b[i].taker_order_id
            &&& a[i].quantity == b[i].quantity
            &&& a[i].price.units() == b[i].price.units()
        }
}

/// Whether two queues hold the same orders in the same order.
pub open spec fn same_queue(a: Seq<Order>, b: Seq<Order>) -> bool {
    &&& a.len() == b.len()
    &&& forall|i: int|
        #![trigger a[i]]
        #![trigger b[i]]
        0 <= i < a.len() ==> a[i].id == b[i].id && a[i].quantity == b[i].quantity
}

/// Whether a level of the one book holds the orders of level `l` of the other, at the same price.
pub open spec fn same_level(grid: Grid, levels: Seq<Seq<Slot>>, l: int, level: Level) -> bool {
    &&& level.price.valid()
    &&& level.price.units() == grid.price(l).units()
    &&& same_queue(orders_of(levels[l], grid.price(l)), level.orders)
}

/// How a price is written makes no difference to trades.
proof fn lemma_writing_makes_no_difference(
    a: Seq<Order>,
    b: Seq<Order>,
    taker: OrderId,
    p: Price,
    q: Price,
    quantity: Quantity,
)
    requires
        same_queue(a, b),
        p.units() == q.units(),
    ensures
        ({
            let x = fill_queue(a, taker, p, quantity);
            let y = fill_queue(b, taker, q, quantity);
            &&& same_fills(x.fills, y.fills)
            &&& x.retired == y.retired
            &&& x.remaining == y.remaining
            &&& same_queue(x.queue, y.queue)
        }),
    decreases a.len(),
{
    if a.len() > 0 && quantity.units() > 0 {
        let f = fill_with(a[0].id, a[0].quantity, taker, p, quantity);
        let g = fill_with(b[0].id, b[0].quantity, taker, q, quantity);
        let left = difference(quantity, f.quantity);
        assert(a[0].id == b[0].id && a[0].quantity == b[0].quantity);
        if f.quantity.units() == a[0].quantity.units() {
            let x = fill_queue(a.skip(1), taker, p, left);
            let y = fill_queue(b.skip(1), taker, q, left);
            assert forall|i: int|
                #![trigger a.skip(1)[i]]
                #![trigger b.skip(1)[i]]
                0 <= i < a.skip(1).len() implies a.skip(1)[i].id == b.skip(1)[i].id && a.skip(
                1,
            )[i].quantity == b.skip(1)[i].quantity by {
                assert(a.skip(1)[i] == a[i + 1] && b.skip(1)[i] == b[i + 1]);
                assert(a[i + 1].id == b[i + 1].id);
            }
            lemma_writing_makes_no_difference(a.skip(1), b.skip(1), taker, p, q, left);
            lemma_same_fills_concat(seq![f], x.fills, seq![g], y.fills);
        }
    }
}

/// Runs of trades that are the same are so one after the other.
proof fn lemma_same_fills_concat(a: Seq<Fill>, b: Seq<Fill>, c: Seq<Fill>, d: Seq<Fill>)
    requires
        same_fills(a, c),
        same_fills(b, d),
    ensures
        same_fills(a + b, c + d),
{
    let (x, y) = (a + b, c + d);
    assert forall|i: int|
        #![trigger x[i]]
        #![trigger y[i]]
        0 <= i < x.len() implies {
        &&& x[i].maker_order_id == y[i].maker_order_id
        &&& x[i].taker_order_id == y[i].taker_order_id
        &&& x[i].quantity == y[i].quantity
        &&& x[i].price.units() == y[i].price.units()
    } by {
        if i < a.len() {
            assert(x[i] == a[i] && y[i] == c[i]);
        } else {
            assert(x[i] == b[i - a.len()] && y[i] == d[i - a.len()]);
        }
    }
}

/// Whether two sides hold the same orders.
pub open spec fn same_orders(
    grid: Grid,
    side: Side,
    levels: Seq<Seq<Slot>>,
    ladder: Map<Rank, Level>,
) -> bool {
    &&& levels.len() == grid.levels
    &&& ladder.dom().finite()
    &&& forall|l: int|
        0 <= l < levels.len() && any_live(#[trigger] levels[l]) ==> {
            let r = rank(side, grid.price(l));
            ladder.contains_key(r) && same_level(grid, levels, l, ladder[r])
        }
    &&& forall|r: Rank| #[trigger]
        ladder.contains_key(r) ==> exists|l: int|
            0 <= l < levels.len() && any_live(#[trigger] levels[l]) && r == rank(
                side,
                grid.price(l),
            )
}

/// Whether a level and a rank are the same limit for the levels at which an order rests.
pub open spec fn same_limit(
    grid: Grid,
    side: Side,
    levels: Seq<Seq<Slot>>,
    limit: int,
    rank_limit: Rank,
) -> bool {
    forall|l: int|
        0 <= l < levels.len() && any_live(#[trigger] levels[l]) ==> (ahead(
            rank_limit,
            rank(side, grid.price(l)),
        ) <==> beats(side, limit, l))
}

/// Ranks order levels as their prices do.
proof fn lemma_level_ranks(grid: Grid, side: Side, a: int, b: int)
    requires
        grid.tick.units() > 0,
        grid.exact(a),
        grid.exact(b),
    ensures
        ahead(rank(side, grid.price(a)), rank(side, grid.price(b))) <==> beats(side, a, b),
        rank(side, grid.price(a)) == rank(side, grid.price(b)) <==> a == b,
{
    grid.lemma_exact_price(a);
    grid.lemma_exact_price(b);
    lemma_rank_order(side, grid.price(a), grid.price(b));
    if a < b {
        grid.lemma_prices_rise(a, b);
    } else if b < a {
        grid.lemma_prices_rise(b, a);
    }
}

/// The level of a price is its limit.
pub proof fn lemma_same_limit(grid: Grid, side: Side, levels: Seq<Seq<Slot>>, limit: int)
    requires
        grid.tick.units() > 0,
        grid.exact(limit),
        exact_at_orders(grid, levels),
    ensures
        same_limit(grid, side, levels, limit, rank(side, grid.price(limit))),
{
    assert forall|l: int| 0 <= l < levels.len() && any_live(#[trigger] levels[l]) implies (ahead(
        rank(side, grid.price(limit)),
        rank(side, grid.price(l)),
    ) <==> beats(side, limit, l)) by {
        lemma_level_ranks(grid, side, limit, l);
    }
}

/// Two sides that hold the same orders trade alike with the same order, where no price at which an
/// order rests rounds, and hold the same orders afterwards. Quantities may round: they do so alike.
pub proof fn lemma_sides_agree(
    grid: Grid,
    side: Side,
    levels: Seq<Seq<Slot>>,
    ladder: Map<Rank, Level>,
    at: int,
    limit: int,
    rank_limit: Rank,
    taker: OrderId,
    quantity: Quantity,
)
    requires
        grid.tick.units() > 0,
        exact_at_orders(grid, levels),
        same_orders(grid, side, levels, ladder),
        same_limit(grid, side, levels, limit, rank_limit),
        match side {
            Side::Buy => -1 <= at < levels.len(),
            Side::Sell => 0 <= at <= levels.len(),
        },
        forall|l: int|
            0 <= l < levels.len() && any_live(#[trigger] levels[l]) ==> !beats(side, l, at),
    ensures
        ({
            let out = sweep_levels(grid, side, levels, at, limit, taker, quantity);
            let same = sweep(ladder, taker, rank_limit, quantity);
            &&& same_fills(out.fills, same.fills)
            &&& out.retired == same.retired
            &&& out.remaining == same.remaining
            &&& same_orders(grid, side, out.levels, same.ladder)
            &&& exact_at_orders(grid, out.levels)
        }),
    decreases
            (match side {
                Side::Buy => at + 1,
                Side::Sell => levels.len() - at,
            }),
{
    let out = sweep_levels(grid, side, levels, at, limit, taker, quantity);
    let same = sweep(ladder, taker, rank_limit, quantity);
    let first = best(ladder);
    if quantity.units() <= 0 {
    } else if !(0 <= at < levels.len()) || beats(side, limit, at) {
        if is_best(ladder, first) {
            let l = choose|l: int|
                0 <= l < levels.len() && any_live(#[trigger] levels[l]) && first == rank(
                    side,
                    grid.price(l),
                );
            assert(!beats(side, l, at));
            assert(beats(side, limit, l));
            assert(ahead(rank_limit, rank(side, grid.price(l))));
        }
    } else {
        let price = grid.price(at);
        let here = fill_slots(levels[at], 0, taker, price, quantity);
        let next = levels.update(at, here.slots);
        let rest = sweep_levels(
            grid,
            side,
            next,
            next_level(side, at),
            limit,
            taker,
            here.remaining,
        );
        let orders = orders_of(levels[at], price);
        let queue = fill_queue(orders, taker, price, quantity);
        lemma_tombstones_make_no_difference(levels[at], 0, taker, price, quantity);
        assert(levels[at].skip(0) =~= levels[at]);
        assert(here.slots.skip(0) =~= here.slots);
        lemma_live_only(levels[at]);
        lemma_live_only(here.slots);
        lemma_slots_used_up(levels[at], taker, price, quantity);
        if !any_live(levels[at]) {
            assert(orders.len() == 0) by {
                if live_only(levels[at]).len() > 0 {
                    assert(live_only(levels[at])[0].live);
                }
            }
            lemma_no_slot_fills(levels[at], 0, taker, price, quantity);
            assert(next =~= levels);
            lemma_sides_agree(
                grid,
                side,
                levels,
                ladder,
                next_level(side, at),
                limit,
                rank_limit,
                taker,
                quantity,
            );
            assert(out.fills =~= rest.fills);
            assert(out.retired =~= rest.retired);
        } else {
            let r = rank(side, price);
            assert forall|other: Rank| #[trigger] ladder.contains_key(other) implies !ahead(
                other,
                r,
            ) by {
                let l = choose|l: int|
                    0 <= l < levels.len() && any_live(#[trigger] levels[l]) && other == rank(
                        side,
                        grid.price(l),
                    );
                lemma_level_ranks(grid, side, l, at);
            }
            assert(is_best(ladder, r));
            lemma_one_best(ladder, r);
            assert(!ahead(rank_limit, rank(side, grid.price(at))));
            let level = ladder[r];
            let plain = fill_queue(level.orders, taker, level.price, quantity);
            lemma_writing_makes_no_difference(
                orders,
                level.orders,
                taker,
                price,
                level.price,
                quantity,
            );
            // The level is used up exactly where the queue is.
            assert(queue.queue.len() == live_only(here.slots).len());
            if queue.queue.len() > 0 {
                assert(live_only(here.slots)[0].live);
                assert(any_live(here.slots));
                assert(here.remaining.units() <= 0);
                assert(rest.fills =~= seq![] && rest.retired =~= seq![]);
                assert(out.fills =~= queue.fills);
                assert(out.retired =~= queue.retired);
                lemma_traded_level(
                    grid,
                    side,
                    levels,
                    ladder,
                    at,
                    here.slots,
                    Level { orders: plain.queue, ..level },
                );
            } else {
                assert(!any_live(here.slots)) by {
                    if any_live(live_only(here.slots)) {
                        let i = choose|i: int|
                            0 <= i < live_only(here.slots).len() && (
                            #[trigger] live_only(here.slots)[i]).live;
                    }
                }
                lemma_used_up_level(grid, side, levels, ladder, at, here.slots);
                assert forall|l: int|
                    0 <= l < next.len() && any_live(#[trigger] next[l]) implies any_live(levels[l])
                    && !beats(side, l, next_level(side, at)) by {
                    assert(l != at);
                    assert(any_live(levels[l]));
                }
                lemma_sides_agree(
                    grid,
                    side,
                    next,
                    ladder.remove(r),
                    next_level(side, at),
                    limit,
                    rank_limit,
                    taker,
                    here.remaining,
                );
                let others = sweep(ladder.remove(r), taker, rank_limit, here.remaining);
                lemma_same_fills_concat(here.fills, rest.fills, plain.fills, others.fills);
            }
        }
    }
}

/// Changing the orders of a level in both books leaves them with the same orders.
proof fn lemma_traded_level(
    grid: Grid,
    side: Side,
    levels: Seq<Seq<Slot>>,
    ladder: Map<Rank, Level>,
    at: int,
    slots: Seq<Slot>,
    level: Level,
)
    requires
        grid.tick.units() > 0,
        exact_at_orders(grid, levels),
        grid.exact(at),
        same_orders(grid, side, levels, ladder),
        0 <= at < levels.len(),
        any_live(slots),
        same_level(grid, levels.update(at, slots), at, level),
    ensures
        same_orders(
            grid,
            side,
            levels.update(at, slots),
            ladder.insert(rank(side, grid.price(at)), level),
        ),
        exact_at_orders(grid, levels.update(at, slots)),
{
    let next = levels.update(at, slots);
    let r0 = rank(side, grid.price(at));
    let after = ladder.insert(r0, level);
    assert forall|l: int| 0 <= l < next.len() && any_live(#[trigger] next[l]) implies {
        let r = rank(side, grid.price(l));
        after.contains_key(r) && same_level(grid, next, l, after[r])
    } by {
        if l != at {
            assert(any_live(levels[l]));
            lemma_level_ranks(grid, side, l, at);
        }
    }
    assert forall|r: Rank| #[trigger] after.contains_key(r) implies exists|l: int|
        0 <= l < next.len() && any_live(#[trigger] next[l]) && r == rank(side, grid.price(l)) by {
        if r == r0 {
            assert(any_live(next[at]));
        } else {
            assert(ladder.contains_key(r));
            let l = choose|l: int|
                0 <= l < levels.len() && any_live(#[trigger] levels[l]) && r == rank(
                    side,
                    grid.price(l),
                );
            assert(any_live(next[l]));
        }
    }
}

/// Taking the last orders of a level out of both books leaves them with the same orders.
proof fn lemma_used_up_level(
    grid: Grid,
    side: Side,
    levels: Seq<Seq<Slot>>,
    ladder: Map<Rank, Level>,
    at: int,
    slots: Seq<Slot>,
)
    requires
        grid.tick.units() > 0,
        exact_at_orders(grid, levels),
        grid.exact(at),
        same_orders(grid, side, levels, ladder),
        0 <= at < levels.len(),
        !any_live(slots),
    ensures
        same_orders(
            grid,
            side,
            levels.update(at, slots),
            ladder.remove(rank(side, grid.price(at))),
        ),
        exact_at_orders(grid, levels.update(at, slots)),
{
    let next = levels.update(at, slots);
    let r0 = rank(side, grid.price(at));
    let after = ladder.remove(r0);
    assert forall|l: int| 0 <= l < next.len() && any_live(#[trigger] next[l]) implies {
        let r = rank(side, grid.price(l));
        after.contains_key(r) && same_level(grid, next, l, after[r])
    } by {
        assert(any_live(levels[l]));
        lemma_level_ranks(grid, side, l, at);
    }
    assert forall|r: Rank| #[trigger] after.contains_key(r) implies exists|l: int|
        0 <= l < next.len() && any_live(#[trigger] next[l]) && r == rank(side, grid.price(l)) by {
        assert(ladder.contains_key(r));
        let l = choose|l: int|
            0 <= l < levels.len() && any_live(#[trigger] levels[l]) && r == rank(
                side,
                grid.price(l),
            );
        assert(l != at);
        assert(any_live(next[l]));
    }
}

/// Whether two books hold the same orders, at prices that do not round and rise from level to
/// level.
pub open spec fn same_books(fixed: FixedState, book: BookState) -> bool {
    &&& fixed.grid.tick.units() > 0
    &&& exact_at_orders(fixed.grid, fixed.bids)
    &&& exact_at_orders(fixed.grid, fixed.asks)
    &&& same_orders(fixed.grid, Side::Buy, fixed.bids, book.bids)
    &&& same_orders(fixed.grid, Side::Sell, fixed.asks, book.asks)
    &&& fixed.index.dom() == book.index.dom()
}

/// Two books without orders hold the same ones.
pub proof fn lemma_blank_books_agree(grid: Grid, depth: usize)
    requires
        grid.tick.units() > 0,
    ensures
        same_books(
            FixedState::blank(grid, depth),
            (BookState { bids: Map::empty(), asks: Map::empty(), index: Map::empty() }),
        ),
{
    let fixed = FixedState::blank(grid, depth);
    assert(fixed.index.dom() =~= Map::<OrderId, Price>::empty().dom());
    assert forall|l: int| 0 <= l < grid.levels implies !any_live(#[trigger] fixed.bids[l]) by {}
    assert forall|l: int| 0 <= l < grid.levels implies !any_live(#[trigger] fixed.asks[l]) by {}
}

/// Two books that hold the same orders answer the same limit order with the same trades, where
/// its price is that of a level, without rounding, and the level has room for what is left of it.
/// Afterwards they hold the same orders.
pub proof fn lemma_limit_orders_agree(
    fixed: FixedState,
    book: BookState,
    id: OrderId,
    side: Side,
    price: Price,
    level: int,
    qty: Quantity,
)
    requires
        same_books(fixed, book),
        0 <= level < fixed.grid.levels,
        fixed.grid.exact(level),
        price.valid(),
        fixed.grid.place(price) == Some(level),
        price.units() == fixed.grid.price(level).units(),
        fixed.limit_order_reply(id, side, price, qty) is Ok,
    ensures
        same_fills(
            fixed.limit_order_reply(id, side, price, qty)->Ok_0,
            book.trades(id, side, price, qty).fills,
        ),
        same_books(
            fixed.after_limit_order(id, side, price, qty),
            book.after_limit_order(id, side, price, qty),
        ),
{
    let grid = fixed.grid;
    let facing = opposite(side);
    grid.lemma_exact_price(level);
    lemma_rank_order(facing, price, grid.price(level));
    lemma_rank_order(side, price, grid.price(level));
    lemma_same_limit(grid, facing, fixed.side(facing), level);
    lemma_trades_agree(fixed, book, id, side, level, rank(facing, price), qty);
    let out = fixed.trades(id, side, level, qty);
    let same = book.trades(id, side, price, qty);
    assert(out.remaining == same.remaining);
    let fixed_traded = fixed.after_trades(id, side, level, qty);
    let book_traded = book.after_trades(id, side, price, qty);
    assert(fixed_traded.index.dom() =~= book_traded.index.dom());
    assert(same_books(fixed_traded, book_traded));
    if out.remaining.units() > 0 {
        let queue = fixed.side(side)[level];
        let order = Slot { id, quantity: out.remaining, live: true };
        let pushed = queue.push(order);
        let own = book_traded.side(side);
        let levels = fixed_traded.side(side);
        let at = grid.price(level);
        let resting = Order { id, price, quantity: out.remaining };
        let r = rank(side, price);
        assert(pushed[queue.len() as int].live);
        assert(any_live(pushed));
        assert(pushed.drop_last() =~= queue);
        assert(orders_of(pushed, at) =~= orders_of(queue, at).push(
            Order { id, price: at, quantity: out.remaining },
        ));
        let now = if own.contains_key(r) {
            Level { orders: own[r].orders.push(resting), ..own[r] }
        } else {
            Level { price, orders: seq![resting] }
        };
        if own.contains_key(r) {
            let l = choose|l: int|
                0 <= l < levels.len() && any_live(#[trigger] levels[l]) && r == rank(
                    side,
                    grid.price(l),
                );
            lemma_level_ranks(grid, side, l, level);
            assert(same_level(grid, levels, level, own[r]));
        } else {
            assert(!any_live(levels[level]));
            lemma_live_only(queue);
            assert(orders_of(queue, at).len() == 0) by {
                if live_only(queue).len() > 0 {
                    assert(live_only(queue)[0].live);
                }
            }
        }
        assert(same_queue(orders_of(pushed, at), now.orders));
        lemma_traded_level(grid, side, levels, own, level, pushed, now);
        let fixed_after = fixed.after_limit_order(id, side, price, qty);
        let book_after = book.after_limit_order(id, side, price, qty);
        assert(book_after.side(side) =~= own.insert(r, now));
        assert(fixed_after.index.dom() =~= book_after.index.dom());
    }
}

/// Two sides that hold the same orders have the same best price.
pub proof fn lemma_best_prices_agree(fixed: FixedState, book: BookState, side: Side)
    requires
        same_books(fixed, book),
    ensures
        match (fixed.best_price(side), best_price(book.side(side))) {
            (Some(p), Some(q)) => p.units() == q.units(),
            (None, None) => true,
            _ => false,
        },
{
    let grid = fixed.grid;
    let levels = fixed.side(side);
    let ladder = book.side(side);
    assert forall|l: int| 0 <= l < levels.len() && any_live(#[trigger] levels[l]) implies orders_of(
        levels[l],
        grid.price(l),
    ).len() > 0 by {
        lemma_live_only(levels[l]);
        let i = choose|i: int|
            0 <= i < live_only(levels[l]).len() && (#[trigger] live_only(levels[l])[i]).live;
    }
    match best_level(side, levels) {
        Some(at) => {
            let r = rank(side, grid.price(at));
            assert(is_best_level(side, levels, at));
            assert(any_live(levels[at]));
            assert forall|other: Rank| #[trigger]
                ladder.contains_key(other) && ladder[other].orders.len() > 0 implies !ahead(
                other,
                r,
            ) by {
                let l = choose|l: int|
                    0 <= l < levels.len() && any_live(#[trigger] levels[l]) && other == rank(
                        side,
                        grid.price(l),
                    );
                lemma_level_ranks(grid, side, l, at);
            }
            assert(is_best_with_orders(ladder, r));
            lemma_one_best_with_orders(ladder, r);
        },
        None => {
            assert forall|first: Rank| !is_best_with_orders(ladder, first) by {
                if ladder.contains_key(first) {
                    let l = choose|l: int|
                        0 <= l < levels.len() && any_live(#[trigger] levels[l]) && first == rank(
                            side,
                            grid.price(l),
                        );
                    fixed.lemma_best_level_is_best(side, l);
                }
            }
        },
    }
}

/// The worst level of the book is the limit of a market order in both books, where no price is
/// below zero.
proof fn lemma_market_limit(fixed: FixedState, side: Side)
    requires
        fixed.grid.tick.units() > 0,
        fixed.grid.base.units() >= 0,
        fixed.side(opposite(side)).len() == fixed.grid.levels,
        exact_at_orders(fixed.grid, fixed.side(opposite(side))),
    ensures
        same_limit(
            fixed.grid,
            opposite(side),
            fixed.side(opposite(side)),
            fixed.market_limit(side),
            rank(opposite(side), BookState::market_limit(side)),
        ),
{
    let grid = fixed.grid;
    let facing = opposite(side);
    let levels = fixed.side(facing);
    let limit = BookState::market_limit(side);
    lemma_of_signed(0, 0);
    lemma_of_signed(MAX_COEFFICIENT as int, 0);
    lemma_one_is_pow10();
    assert forall|l: int| 0 <= l < levels.len() && any_live(#[trigger] levels[l]) implies (ahead(
        rank(facing, limit),
        rank(facing, grid.price(l)),
    ) <==> beats(facing, fixed.market_limit(side), l)) by {
        let t = grid.tick.units();
        grid.lemma_exact_price(l);
        lemma_units_bound(grid.price(l));
        lemma_rank_order(facing, limit, grid.price(l));
        assert(l * t >= 0) by (nonlinear_arith)
            requires
                l >= 0,
                t > 0,
        ;
    }
}

/// Two books that hold the same orders answer the same market order with the same trades, where
/// no price is below zero. Afterwards they hold the same orders.
pub proof fn lemma_market_orders_agree(
    fixed: FixedState,
    book: BookState,
    id: OrderId,
    side: Side,
    qty: Quantity,
)
    requires
        fixed.grid.base.units() >= 0,
        same_books(fixed, book),
    ensures
        ({
            let limit = fixed.market_limit(side);
            let price = BookState::market_limit(side);
            &&& same_fills(
                fixed.trades(id, side, limit, qty).fills,
                book.trades(id, side, price, qty).fills,
            )
            &&& same_books(
                fixed.after_trades(id, side, limit, qty),
                book.after_trades(id, side, price, qty),
            )
        }),
{
    let limit = fixed.market_limit(side);
    let price = BookState::market_limit(side);
    lemma_market_limit(fixed, side);
    lemma_trades_agree(fixed, book, id, side, limit, rank(opposite(side), price), qty);
    assert(fixed.after_trades(id, side, limit, qty).index.dom() =~= book.after_trades(
        id,
        side,
        price,
        qty,
    ).index.dom());
}

/// Two books that hold the same orders trade alike with the same limit.
proof fn lemma_trades_agree(
    fixed: FixedState,
    book: BookState,
    id: OrderId,
    side: Side,
    limit: int,
    rank_limit: Rank,
    qty: Quantity,
)
    requires
        same_books(fixed, book),
        same_limit(fixed.grid, opposite(side), fixed.side(opposite(side)), limit, rank_limit),
    ensures
        ({
            let out = fixed.trades(id, side, limit, qty);
            let same = sweep(book.side(opposite(side)), id, rank_limit, qty);
            &&& same_fills(out.fills, same.fills)
            &&& out.retired == same.retired
            &&& out.remaining == same.remaining
            &&& same_orders(fixed.grid, opposite(side), out.levels, same.ladder)
            &&& exact_at_orders(fixed.grid, out.levels)
        }),
{
    let grid = fixed.grid;
    let facing = opposite(side);
    let levels = fixed.side(facing);
    let ladder = book.side(facing);
    match best_level(facing, levels) {
        Some(at) => {
            lemma_sides_agree(grid, facing, levels, ladder, at, limit, rank_limit, id, qty);
        },
        None => {
            assert(!is_best(ladder, best(ladder))) by {
                if is_best(ladder, best(ladder)) {
                    let l = choose|l: int|
                        0 <= l < levels.len() && any_live(#[trigger] levels[l]) && best(ladder)
                            == rank(facing, grid.price(l));
                    fixed.lemma_best_level_is_best(facing, l);
                }
            }
        },
    }
}

/// Two books that hold the same orders do so after a level of the one was compacted.
pub proof fn lemma_compaction_agrees(
    fixed: FixedState,
    book: BookState,
    side: Side,
    level: int,
)
    requires
        same_books(fixed, book),
        0 <= level < fixed.side(side).len(),
    ensures
        same_books(fixed.after_compaction(side, level), book),
{
    let grid = fixed.grid;
    let levels = fixed.side(side);
    let ladder = book.side(side);
    let after = fixed.after_compaction(side, level);
    let next = after.side(side);
    lemma_live_only(levels[level]);
    lemma_all_live(live_only(levels[level]));
    assert forall|l: int| 0 <= l < levels.len() implies {
        &&& any_live(#[trigger] next[l]) == any_live(levels[l])
        &&& orders_of(next[l], grid.price(l)) == orders_of(levels[l], grid.price(l))
    } by {}
    assert forall|l: int| 0 <= l < next.len() && any_live(#[trigger] next[l]) implies {
        let r = rank(side, grid.price(l));
        ladder.contains_key(r) && same_level(grid, next, l, ladder[r])
    } by {
        assert(any_live(levels[l]));
    }
    assert forall|r: Rank| #[trigger] ladder.contains_key(r) implies exists|l: int|
        0 <= l < next.len() && any_live(#[trigger] next[l]) && r == rank(side, grid.price(l)) by {
        let l = choose|l: int|
            0 <= l < levels.len() && any_live(#[trigger] levels[l]) && r == rank(
                side,
                grid.price(l),
            );
        assert(any_live(next[l]));
    }
    assert(after.index.dom() =~= fixed.index.dom());
}

/// Two books that hold the same orders, and have them in their indices, find the same orders to
/// cancel. Afterwards they hold the same orders.
pub proof fn lemma_cancels_agree(fixed: FixedState, book: BookState, id: OrderId)
    requires
        fixed.wf(),
        fixed.well_indexed(),
        book.wf(),
        book.well_indexed(),
        same_books(fixed, book),
    ensures
        fixed.index.contains_key(id) <==> book.can_cancel(id),
        same_books(fixed.after_cancel(id), book.after_cancel(id)),
{
    book.lemma_can_cancel_resting(id);
    assert(fixed.index.dom().contains(id) <==> book.index.dom().contains(id));
    if fixed.index.contains_key(id) {
        let grid = fixed.grid;
        let (s, l, i) = fixed.index[id];
        let (l, i) = (l as int, i as int);
        assert(fixed.has_order(s, l, i));
        let levels = fixed.side(s);
        let ladder = book.side(s);
        let slots = levels[l];
        let price = grid.price(l);
        let r = rank(s, price);
        let gone = tombstone(slots, i);
        assert(slots[i].live);
        assert(any_live(slots));
        assert(same_level(grid, levels, l, ladder[r]));
        let orders = ladder[r].orders;
        let twins = orders_of(slots, price);
        let k = live_only(slots.take(i)).len() as int;
        lemma_live_only_tombstone(slots, i);
        assert(twins[k].id == id);
        assert(orders[k].id == id);
        assert(book.has_order(s, r, k));
        book.lemma_found(id, s, r, k);
        let first = choose|first: int| is_first_of(orders, id, first);
        assert(is_first_of(orders, id, k));
        assert(first == k);
        assert(twins.remove(k) =~= orders_of(gone, price));
        let left = orders.remove(k);
        assert forall|j: int|
            #![trigger twins.remove(k)[j]]
            #![trigger left[j]]
            0 <= j < left.len() implies twins.remove(k)[j].id == left[j].id && twins.remove(
            k,
        )[j].quantity == left[j].quantity by {
            let m = if j < k {
                j
            } else {
                j + 1
            };
            assert(twins[m].id == orders[m].id);
            assert(twins.remove(k)[j] == twins[m] && left[j] == orders[m]);
        }
        assert(same_queue(orders_of(gone, price), left));
        let after = book.after_cancel(id);
        assert(after.side(s) == removed(ladder, r, id));
        assert(after.side(opposite(s)) == book.side(opposite(s)));
        lemma_live_only(gone);
        if orders.remove(k).len() == 0 {
            assert(!any_live(gone)) by {
                if any_live(live_only(gone)) {
                    let j = choose|j: int|
                        0 <= j < live_only(gone).len() && (#[trigger] live_only(gone)[j]).live;
                }
            }
            lemma_used_up_level(grid, s, levels, ladder, l, gone);
        } else {
            assert(live_only(gone)[0].live);
            assert(any_live(gone));
            lemma_traded_level(
                grid,
                s,
                levels,
                ladder,
                l,
                gone,
                Level { orders: left, ..ladder[r] },
            );
        }
        assert(fixed.after_cancel(id).index.dom() =~= after.index.dom());
    }
}

} // verus!
