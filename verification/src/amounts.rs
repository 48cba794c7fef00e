//! What rests on a side of a book, and what trades take from it.
use crate::book_laws::lemma_ladder_without_best;
use crate::decimal::{difference, difference_fits, lemma_difference_exact, MAX_SCALE};
use crate::ladder::{
    ahead, best, is_best, ladder_wf, lemma_one_best, level_wf, rank, sweep, Level, Rank,
};
use crate::matching::{
    fill_queue, fill_with, filled, grained, lemma_fill_queue_orderly, lemma_fill_queue_remaining,
    lemma_first_come_first_served, lemma_grained_difference, lemma_grained_is_exact,
};
use crate::order::Order;
use crate::orderbook::{opposite, BookState};
use crate::types::{Fill, OrderId, Price, Quantity, Side};
use vstd::prelude::*;

verus! {

/// The sum of the quantities of those trades whose maker and price `pick` picks, in units of
/// `10^-28`.
pub open spec fn filled_of(fills: Seq<Fill>, pick: spec_fn(OrderId, Price) -> bool) -> int
    decreases fills.len(),
{
    if fills.len() == 0 {
        0
    } else {
        filled_of(fills.drop_last(), pick) + if pick(
            fills.last().maker_order_id,
            fills.last().price,
        ) {
            fills.last().quantity.units()
        } else {
            0
        }
    }
}

/// The sum of the quantities of those orders of a queue at `price` that `pick` picks, in units of
/// `10^-28`.
pub open spec fn amount(
    queue: Seq<Order>,
    price: Price,
    pick: spec_fn(OrderId, Price) -> bool,
) -> int
    decreases queue.len(),
{
    if queue.len() == 0 {
        0
    } else {
        amount(queue.skip(1), price, pick) + if pick(queue[0].id, price) {
            queue[0].quantity.units()
        } else {
            0
        }
    }
}

/// The same of a whole side of a book.
pub open spec fn ladder_amount(
    ladder: Map<Rank, Level>,
    pick: spec_fn(OrderId, Price) -> bool,
) -> int
    decreases ladder.dom().len(),
    when ladder.dom().finite()
{
    let first = best(ladder);
    if is_best(ladder, first) {
        amount(ladder[first].orders, ladder[first].price, pick) + ladder_amount(
            ladder.remove(first),
            pick,
        )
    } else {
        0
    }
}

/// Whether taking a trade from the order that is filled in part, if any, does not round.
pub open spec fn makers_exact(
    queue: Seq<Order>,
    taker: OrderId,
    price: Price,
    quantity: Quantity,
) -> bool {
    let out = fill_queue(queue, taker, price, quantity);
    let k = out.retired.len() as int;
    k < out.fills.len() ==> {
        &&& queue[k].quantity.valid()
        &&& out.fills[k].quantity.valid()
        &&& difference_fits(queue[k].quantity, out.fills[k].quantity)
    }
}

/// The same of a trade with a whole side.
pub open spec fn sweep_makers_exact(
    ladder: Map<Rank, Level>,
    taker: OrderId,
    limit: Rank,
    quantity: Quantity,
) -> bool
    decreases ladder.dom().len(),
    when ladder.dom().finite()
{
    let first = best(ladder);
    if quantity.units() <= 0 || !is_best(ladder, first) || ahead(limit, first) {
        true
    } else {
        let level = ladder[first];
        let here = fill_queue(level.orders, taker, level.price, quantity);
        &&& makers_exact(level.orders, taker, level.price, quantity)
        &&& here.queue.len() == 0 ==> sweep_makers_exact(
            ladder.remove(first),
            taker,
            limit,
            here.remaining,
        )
    }
}

/// Two runs of trades are for what each is for.
pub proof fn lemma_filled_of_concat(
    a: Seq<Fill>,
    b: Seq<Fill>,
    pick: spec_fn(OrderId, Price) -> bool,
)
    ensures
        filled_of(a + b, pick) == filled_of(a, pick) + filled_of(b, pick),
    decreases b.len(),
{
    if b.len() == 0 {
        assert(a + b =~= a);
    } else {
        lemma_filled_of_concat(a, b.drop_last(), pick);
        assert((a + b).drop_last() =~= a + b.drop_last());
        assert((a + b).last() == b.last());
    }
}

/// All trades are for what they are for together.
pub proof fn lemma_filled_all(fills: Seq<Fill>)
    ensures
        filled_of(fills, |id: OrderId, price: Price| true) == filled(fills),
    decreases fills.len(),
{
    if fills.len() > 0 {
        lemma_filled_all(fills.drop_last());
    }
}

proof fn lemma_filled_of_one(fill: Fill, pick: spec_fn(OrderId, Price) -> bool)
    ensures
        filled_of(seq![fill], pick) == if pick(fill.maker_order_id, fill.price) {
            fill.quantity.units()
        } else {
            0
        },
{
    let one = seq![fill];
    assert(one.drop_last() =~= Seq::<Fill>::empty());
    assert(filled_of(one.drop_last(), pick) == 0);
}

/// The orders of a queue lose what is traded and no more, each of them what it trades, where
/// taking it from the one that is filled in part, if any, does not round.
pub proof fn lemma_makers_conserve(
    queue: Seq<Order>,
    taker: OrderId,
    price: Price,
    quantity: Quantity,
    pick: spec_fn(OrderId, Price) -> bool,
)
    requires
        makers_exact(queue, taker, price, quantity),
    ensures
        ({
            let out = fill_queue(queue, taker, price, quantity);
            amount(out.queue, price, pick) + filled_of(out.fills, pick) == amount(
                queue,
                price,
                pick,
            )
        }),
    decreases queue.len(),
{
    if queue.len() > 0 && quantity.units() > 0 {
        let maker = queue[0];
        let fill = fill_with(maker.id, maker.quantity, taker, price, quantity);
        let out = fill_queue(queue, taker, price, quantity);
        lemma_filled_of_one(fill, pick);
        if fill.quantity.units() == maker.quantity.units() {
            let left = difference(quantity, fill.quantity);
            let rest = fill_queue(queue.skip(1), taker, price, left);
            lemma_makers_exact_rest(queue, taker, price, quantity);
            lemma_makers_conserve(queue.skip(1), taker, price, left, pick);
            lemma_filled_of_concat(seq![fill], rest.fills, pick);
        } else {
            assert(out.fills[0] == fill);
            lemma_difference_exact(maker.quantity, fill.quantity);
            assert(out.queue.skip(1) =~= queue.skip(1));
        }
    }
}

/// Where the first order of a queue is filled whole, the others go on as they would alone.
pub proof fn lemma_makers_exact_rest(
    queue: Seq<Order>,
    taker: OrderId,
    price: Price,
    quantity: Quantity,
)
    requires
        queue.len() > 0,
        quantity.units() > 0,
        quantity.smaller(queue[0].quantity).units() == queue[0].quantity.units(),
    ensures
        makers_exact(queue, taker, price, quantity) <==> makers_exact(
            queue.skip(1),
            taker,
            price,
            difference(quantity, quantity.smaller(queue[0].quantity)),
        ),
{
    let left = difference(quantity, quantity.smaller(queue[0].quantity));
    let out = fill_queue(queue, taker, price, quantity);
    let rest = fill_queue(queue.skip(1), taker, price, left);
    let k = out.retired.len() as int;
    lemma_first_come_first_served(queue.skip(1), taker, price, left);
    if k < out.fills.len() {
        assert(queue.skip(1)[k - 1] == queue[k]);
        assert(out.fills[k] == rest.fills[k - 1]);
    }
}

/// What is left of a queue whose orders are for something is for something.
pub proof fn lemma_left_positive(
    queue: Seq<Order>,
    taker: OrderId,
    price: Price,
    quantity: Quantity,
)
    requires
        makers_exact(queue, taker, price, quantity),
        forall|i: int|
            0 <= i < queue.len() ==> (#[trigger] queue[i]).quantity.valid()
                && queue[i].quantity.units() > 0,
    ensures
        forall|i: int|
            0 <= i < fill_queue(queue, taker, price, quantity).queue.len() ==> (
            #[trigger] fill_queue(queue, taker, price, quantity).queue[i]).quantity.valid()
                && fill_queue(queue, taker, price, quantity).queue[i].quantity.units() > 0,
    decreases queue.len(),
{
    if queue.len() > 0 && quantity.units() > 0 {
        let maker = queue[0];
        let fill = fill_with(maker.id, maker.quantity, taker, price, quantity);
        let out = fill_queue(queue, taker, price, quantity);
        if fill.quantity.units() == maker.quantity.units() {
            let left = difference(quantity, fill.quantity);
            lemma_makers_exact_rest(queue, taker, price, quantity);
            lemma_left_positive(queue.skip(1), taker, price, left);
        } else {
            assert(out.fills[0] == fill);
            lemma_difference_exact(maker.quantity, fill.quantity);
        }
    }
}

/// What a queue holds is not below zero.
pub proof fn lemma_amount_not_negative(
    queue: Seq<Order>,
    price: Price,
    pick: spec_fn(OrderId, Price) -> bool,
)
    requires
        forall|i: int| 0 <= i < queue.len() ==> (#[trigger] queue[i]).quantity.units() > 0,
    ensures
        amount(queue, price, pick) >= 0,
    decreases queue.len(),
{
    if queue.len() > 0 {
        lemma_amount_not_negative(queue.skip(1), price, pick);
    }
}

/// The orders of a side lose what is traded and no more, each of them what it trades, where
/// taking it from the one that is filled in part, if any, does not round.
pub proof fn lemma_side_conserves(
    ladder: Map<Rank, Level>,
    taker: OrderId,
    limit: Rank,
    quantity: Quantity,
    pick: spec_fn(OrderId, Price) -> bool,
)
    requires
        ladder.dom().finite(),
        sweep_makers_exact(ladder, taker, limit, quantity),
    ensures
        ({
            let out = sweep(ladder, taker, limit, quantity);
            ladder_amount(out.ladder, pick) + filled_of(out.fills, pick) == ladder_amount(
                ladder,
                pick,
            )
        }),
    decreases ladder.dom().len(),
{
    let first = best(ladder);
    if !(quantity.units() <= 0 || !is_best(ladder, first) || ahead(limit, first)) {
        let level = ladder[first];
        let out = sweep(ladder, taker, limit, quantity);
        let here = fill_queue(level.orders, taker, level.price, quantity);
        lemma_makers_conserve(level.orders, taker, level.price, quantity, pick);
        if here.queue.len() > 0 {
            assert(is_best(out.ladder, first)) by {
                assert forall|other: Rank| #[trigger] out.ladder.contains_key(other) implies !ahead(
                    other,
                    first,
                ) by {
                    assert(ladder.contains_key(other));
                }
            }
            lemma_one_best(out.ladder, first);
            assert(out.ladder.remove(first) =~= ladder.remove(first));
        } else {
            let others = ladder.remove(first);
            assert(others.dom().len() < ladder.dom().len());
            let rest = sweep(others, taker, limit, here.remaining);
            lemma_side_conserves(others, taker, limit, here.remaining, pick);
            lemma_filled_of_concat(here.fills, rest.fills, pick);
        }
    }
}

/// Taking a trade from an order does not round where both can be written with the same number of
/// decimal places.
pub proof fn lemma_grained_makers(
    queue: Seq<Order>,
    taker: OrderId,
    price: Price,
    quantity: Quantity,
    places: nat,
)
    requires
        places <= MAX_SCALE,
        grained(quantity, places),
        forall|i: int|
            0 <= i < queue.len() ==> (#[trigger] queue[i]).quantity.units() > 0 && grained(
                queue[i].quantity,
                places,
            ),
    ensures
        makers_exact(queue, taker, price, quantity),
        grained(fill_queue(queue, taker, price, quantity).remaining, places),
    decreases queue.len(),
{
    let out = fill_queue(queue, taker, price, quantity);
    let resting = |resting: Quantity| grained(resting, places);
    lemma_fill_queue_orderly(queue, taker, price, quantity, resting);
    lemma_fill_queue_remaining(queue, taker, price, quantity);
    lemma_grained_is_exact(quantity, out.fills, places);
    if queue.len() > 0 && quantity.units() > 0 {
        let maker = queue[0];
        let fill = fill_with(maker.id, maker.quantity, taker, price, quantity);
        let left = difference(quantity, fill.quantity);
        if fill.quantity.units() == maker.quantity.units() {
            lemma_grained_difference(quantity, fill.quantity, places);
            lemma_makers_exact_rest(queue, taker, price, quantity);
            lemma_grained_makers(queue.skip(1), taker, price, left, places);
        } else {
            assert(out.fills[0] == fill);
            lemma_grained_difference(maker.quantity, fill.quantity, places);
        }
    }
}

/// The same of a whole side.
pub proof fn lemma_grained_side(
    side: Side,
    ladder: Map<Rank, Level>,
    taker: OrderId,
    limit: Rank,
    quantity: Quantity,
    places: nat,
)
    requires
        places <= MAX_SCALE,
        ladder_wf(side, ladder),
        grained(quantity, places),
        forall|r: Rank, i: int|
            ladder.contains_key(r) && 0 <= i < ladder[r].orders.len() ==> grained(
                (#[trigger] ladder[r].orders[i]).quantity,
                places,
            ),
    ensures
        sweep_makers_exact(ladder, taker, limit, quantity),
    decreases ladder.dom().len(),
{
    let first = best(ladder);
    if !(quantity.units() <= 0 || !is_best(ladder, first) || ahead(limit, first)) {
        let level = ladder[first];
        let here = fill_queue(level.orders, taker, level.price, quantity);
        assert(level_wf(level));
        lemma_grained_makers(level.orders, taker, level.price, quantity, places);
        if here.queue.len() == 0 {
            let others = ladder.remove(first);
            lemma_ladder_without_best(side, ladder);
            assert forall|r: Rank, i: int|
                others.contains_key(r) && 0 <= i < others[r].orders.len() implies grained(
                (#[trigger] others[r].orders[i]).quantity,
                places,
            ) by {
                assert(ladder[r].orders[i] == others[r].orders[i]);
            }
            lemma_grained_side(side, others, taker, limit, here.remaining, places);
        }
    }
}

impl BookState {
    /// The orders of a book lose what is traded and no more, each of them what it trades, where
    /// taking it from the one that is filled in part, if any, does not round.
    pub proof fn lemma_makers_conserve(
        self,
        id: OrderId,
        side: Side,
        price: Price,
        qty: Quantity,
        pick: spec_fn(OrderId, Price) -> bool,
    )
        requires
            self.wf(),
            sweep_makers_exact(
                self.side(opposite(side)),
                id,
                rank(opposite(side), price),
                qty,
            ),
        ensures
            ladder_amount(
                self.after_trades(id, side, price, qty).side(opposite(side)),
                pick,
            ) + filled_of(self.trades(id, side, price, qty).fills, pick) == ladder_amount(
                self.side(opposite(side)),
                pick,
            ),
    {
        lemma_side_conserves(
            self.side(opposite(side)),
            id,
            rank(opposite(side), price),
            qty,
            pick,
        );
    }
}

} // verus!
