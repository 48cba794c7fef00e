//! How an incoming order trades with the orders that rest at one price, first come first served.
use crate::decimal::{
    difference, difference_fits, lemma_difference_divisible, lemma_difference_exact,
    lemma_difference_of_self, pow10, representable_with, MAX_COEFFICIENT, MAX_SCALE,
};
use crate::order::Order;
use crate::types::{Fill, OrderId, Price, Quantity};
use vstd::prelude::*;

verus! {

/// What comes of a trade with a queue of resting orders.
pub struct QueueOutcome {
    /// The trades, in the order in which they were made.
    pub fills: Seq<Fill>,
    /// The orders that were filled whole, in the order in which they were filled.
    pub retired: Seq<OrderId>,
    /// What is left of the incoming order.
    pub remaining: Quantity,
    /// What is left of the queue.
    pub queue: Seq<Order>,
}

/// The trade between the taker's `quantity` and a resting order at `price`.
pub open spec fn fill_with(
    maker: OrderId,
    resting: Quantity,
    taker: OrderId,
    price: Price,
    quantity: Quantity,
) -> Fill {
    Fill {
        maker_order_id: maker,
        taker_order_id: taker,
        price,
        quantity: quantity.smaller(resting),
    }
}

/// Trades `quantity` with the queue, from its front, until the quantity or the queue is used up.
pub open spec fn fill_queue(
    queue: Seq<Order>,
    taker: OrderId,
    price: Price,
    quantity: Quantity,
) -> QueueOutcome
    decreases queue.len(),
{
    if queue.len() == 0 || quantity.units() <= 0 {
        QueueOutcome { fills: seq![], retired: seq![], remaining: quantity, queue }
    } else {
        let maker = queue[0];
        let fill = fill_with(maker.id, maker.quantity, taker, price, quantity);
        let remaining = difference(quantity, fill.quantity);
        if fill.quantity.units() == maker.quantity.units() {
            let rest = fill_queue(queue.skip(1), taker, price, remaining);
            QueueOutcome {
                fills: seq![fill] + rest.fills,
                retired: seq![maker.id] + rest.retired,
                remaining: rest.remaining,
                queue: rest.queue,
            }
        } else {
            let reduced = Order {
                quantity: difference(maker.quantity, fill.quantity),
                ..maker
            };
            QueueOutcome {
                fills: seq![fill],
                retired: seq![],
                remaining,
                queue: queue.update(0, reduced),
            }
        }
    }
}

/// `index` without the entries of `ids`.
pub open spec fn without<V>(index: Map<OrderId, V>, ids: Seq<OrderId>) -> Map<OrderId, V> {
    index.remove_keys(ids.to_set())
}

/// Leaving out nothing changes nothing.
pub proof fn lemma_without_nothing<V>(index: Map<OrderId, V>)
    ensures
        without(index, seq![]) == index,
{
    assert(without(index, seq![]) =~= index);
}

/// Leaving out one more id is leaving it out afterwards.
pub proof fn lemma_without_push<V>(index: Map<OrderId, V>, ids: Seq<OrderId>, id: OrderId)
    ensures
        without(index, ids.push(id)) == without(index, ids).remove(id),
{
    assert forall|k: OrderId|
        without(index, ids.push(id)).contains_key(k) <==> without(index, ids).remove(
            id,
        ).contains_key(k) by {
        if ids.contains(k) {
            let i = choose|i: int| 0 <= i < ids.len() && ids[i] == k;
            assert(ids.push(id)[i] == k);
        }
        assert(ids.push(id)[ids.len() as int] == id);
        if ids.push(id).contains(k) {
            let i = choose|i: int| 0 <= i < ids.push(id).len() && ids.push(id)[i] == k;
            if i < ids.len() {
                assert(ids[i] == k);
            }
        }
    }
    assert(without(index, ids.push(id)) =~= without(index, ids).remove(id));
}

/// Leaving out ids in two steps is leaving them out at once.
pub proof fn lemma_without_concat<V>(index: Map<OrderId, V>, a: Seq<OrderId>, b: Seq<OrderId>)
    ensures
        without(without(index, a), b) == without(index, a + b),
{
    assert forall|k: OrderId| (a + b).contains(k) <==> a.contains(k) || b.contains(k) by {
        if a.contains(k) {
            let i = choose|i: int| 0 <= i < a.len() && a[i] == k;
            assert((a + b)[i] == k);
        }
        if b.contains(k) {
            let i = choose|i: int| 0 <= i < b.len() && b[i] == k;
            assert((a + b)[i + a.len()] == k);
        }
        if (a + b).contains(k) {
            let i = choose|i: int| 0 <= i < (a + b).len() && (a + b)[i] == k;
            if i < a.len() {
                assert(a[i] == k);
            } else {
                assert(b[i - a.len()] == k);
            }
        }
    }
    assert(without(without(index, a), b) =~= without(index, a + b));
}

/// What is left of `quantity` once the quantity of each trade has been taken from it, one after
/// the other.
pub open spec fn less_fills(quantity: Quantity, fills: Seq<Fill>) -> Quantity
    decreases fills.len(),
{
    if fills.len() == 0 {
        quantity
    } else {
        difference(less_fills(quantity, fills.drop_last()), fills.last().quantity)
    }
}

/// The sum of the quantities of the trades, in units of `10^-28`.
pub open spec fn filled(fills: Seq<Fill>) -> int
    decreases fills.len(),
{
    if fills.len() == 0 {
        0
    } else {
        filled(fills.drop_last()) + fills.last().quantity.units()
    }
}

/// Whether none of the subtractions of `less_fills` has to round.
pub open spec fn exact_steps(quantity: Quantity, fills: Seq<Fill>) -> bool
    decreases fills.len(),
{
    fills.len() == 0 || {
        &&& exact_steps(quantity, fills.drop_last())
        &&& fills.last().quantity.valid()
        &&& difference_fits(less_fills(quantity, fills.drop_last()), fills.last().quantity)
    }
}

/// Whether each trade is for something, is for no more than what the ones before it have left,
/// and is for all of that or else for a quantity that `resting` allows.
pub open spec fn orderly(
    quantity: Quantity,
    fills: Seq<Fill>,
    resting: spec_fn(Quantity) -> bool,
) -> bool
    decreases fills.len(),
{
    fills.len() == 0 || {
        let left = less_fills(quantity, fills.drop_last());
        let traded = fills.last().quantity;
        &&& orderly(quantity, fills.drop_last(), resting)
        &&& 0 < traded.units() <= left.units()
        &&& traded == left || resting(traded)
    }
}

/// Whether a quantity can be written with `places` decimal places.
pub open spec fn grained(quantity: Quantity, places: nat) -> bool {
    &&& quantity.valid()
    &&& quantity.places() <= places
    &&& 0 <= quantity.units() <= MAX_COEFFICIENT * pow10((MAX_SCALE - places) as nat)
}

/// What two runs of trades take, they take one after the other.
pub proof fn lemma_less_fills_concat(quantity: Quantity, a: Seq<Fill>, b: Seq<Fill>)
    ensures
        less_fills(quantity, a + b) == less_fills(less_fills(quantity, a), b),
        filled(a + b) == filled(a) + filled(b),
        exact_steps(quantity, a + b) <==> exact_steps(quantity, a) && exact_steps(
            less_fills(quantity, a),
            b,
        ),
    decreases b.len(),
{
    if b.len() == 0 {
        assert(a + b =~= a);
    } else {
        lemma_less_fills_concat(quantity, a, b.drop_last());
        assert((a + b).drop_last() =~= a + b.drop_last());
        assert((a + b).last() == b.last());
    }
}

/// Two orderly runs of trades are orderly one after the other.
pub proof fn lemma_orderly_concat(
    quantity: Quantity,
    a: Seq<Fill>,
    b: Seq<Fill>,
    resting: spec_fn(Quantity) -> bool,
)
    requires
        orderly(quantity, a, resting),
        orderly(less_fills(quantity, a), b, resting),
    ensures
        orderly(quantity, a + b, resting),
    decreases b.len(),
{
    if b.len() == 0 {
        assert(a + b =~= a);
    } else {
        lemma_orderly_concat(quantity, a, b.drop_last(), resting);
        lemma_less_fills_concat(quantity, a, b.drop_last());
        assert((a + b).drop_last() =~= a + b.drop_last());
        assert((a + b).last() == b.last());
    }
}

/// One trade, as a sequence.
pub proof fn lemma_one_fill(quantity: Quantity, fill: Fill)
    ensures
        less_fills(quantity, seq![fill]) == difference(quantity, fill.quantity),
        filled(seq![fill]) == fill.quantity.units(),
{
    let one = seq![fill];
    assert(one.drop_last() =~= Seq::<Fill>::empty());
    assert(less_fills(quantity, one.drop_last()) == quantity);
    assert(filled(one.drop_last()) == 0);
}

/// Nothing is lost: where no subtraction rounds, what was traded and what is left add up to what
/// there was.
pub proof fn lemma_conservation(quantity: Quantity, fills: Seq<Fill>)
    requires
        quantity.valid(),
        exact_steps(quantity, fills),
    ensures
        less_fills(quantity, fills).valid(),
        less_fills(quantity, fills).units() + filled(fills) == quantity.units(),
    decreases fills.len(),
{
    if fills.len() > 0 {
        lemma_conservation(quantity, fills.drop_last());
        lemma_difference_exact(
            less_fills(quantity, fills.drop_last()),
            fills.last().quantity,
        );
    }
}

/// Taking a quantity from one that is not smaller is exact where both can be written with the
/// same number of decimal places.
pub proof fn lemma_grained_difference(a: Quantity, b: Quantity, places: nat)
    requires
        places <= MAX_SCALE,
        grained(a, places),
        grained(b, places),
        b.units() <= a.units(),
    ensures
        difference_fits(a, b),
        grained(difference(a, b), places),
{
    lemma_difference_divisible(a, b, places);
    assert(representable_with(a.units() - b.units(), places));
    lemma_difference_exact(a, b);
}

/// No trade rounds where the incoming quantity and every quantity that rests can be written with
/// the same number of decimal places.
pub proof fn lemma_grained_is_exact(quantity: Quantity, fills: Seq<Fill>, places: nat)
    requires
        places <= MAX_SCALE,
        grained(quantity, places),
        orderly(quantity, fills, |resting: Quantity| grained(resting, places)),
    ensures
        exact_steps(quantity, fills),
        grained(less_fills(quantity, fills), places),
    decreases fills.len(),
{
    if fills.len() > 0 {
        lemma_grained_is_exact(quantity, fills.drop_last(), places);
        lemma_grained_difference(
            less_fills(quantity, fills.drop_last()),
            fills.last().quantity,
            places,
        );
    }
}

/// Every trade is for something.
pub proof fn lemma_fills_positive(
    quantity: Quantity,
    fills: Seq<Fill>,
    resting: spec_fn(Quantity) -> bool,
)
    requires
        orderly(quantity, fills, resting),
    ensures
        forall|i: int| 0 <= i < fills.len() ==> (#[trigger] fills[i]).quantity.units() > 0,
    decreases fills.len(),
{
    if fills.len() > 0 {
        lemma_fills_positive(quantity, fills.drop_last(), resting);
        assert forall|i: int| 0 <= i < fills.len() implies (#[trigger] fills[i]).quantity.units()
            > 0 by {
            if i < fills.len() - 1 {
                assert(fills.drop_last()[i] == fills[i]);
            }
        }
    }
}

/// What is left of the incoming quantity is what the trades have not taken from it.
pub proof fn lemma_fill_queue_remaining(
    queue: Seq<Order>,
    taker: OrderId,
    price: Price,
    quantity: Quantity,
)
    ensures
        ({
            let out = fill_queue(queue, taker, price, quantity);
            out.remaining == less_fills(quantity, out.fills)
        }),
    decreases queue.len(),
{
    if queue.len() > 0 && quantity.units() > 0 {
        let maker = queue[0];
        let fill = fill_with(maker.id, maker.quantity, taker, price, quantity);
        let left = difference(quantity, fill.quantity);
        lemma_one_fill(quantity, fill);
        if fill.quantity.units() == maker.quantity.units() {
            let rest = fill_queue(queue.skip(1), taker, price, left);
            lemma_fill_queue_remaining(queue.skip(1), taker, price, left);
            lemma_less_fills_concat(quantity, seq![fill], rest.fills);
        }
    }
}

/// Something is left of the incoming quantity only once the queue is used up.
pub proof fn lemma_queue_used_up(
    queue: Seq<Order>,
    taker: OrderId,
    price: Price,
    quantity: Quantity,
)
    ensures
        ({
            let out = fill_queue(queue, taker, price, quantity);
            out.remaining.units() > 0 ==> out.queue.len() == 0
        }),
    decreases queue.len(),
{
    if queue.len() > 0 && quantity.units() > 0 {
        let maker = queue[0];
        let fill = fill_with(maker.id, maker.quantity, taker, price, quantity);
        let left = difference(quantity, fill.quantity);
        if fill.quantity.units() == maker.quantity.units() {
            lemma_queue_used_up(queue.skip(1), taker, price, left);
        } else {
            lemma_difference_of_self(quantity);
        }
    }
}

/// The trades with a queue are orderly.
pub proof fn lemma_fill_queue_orderly(
    queue: Seq<Order>,
    taker: OrderId,
    price: Price,
    quantity: Quantity,
    resting: spec_fn(Quantity) -> bool,
)
    requires
        forall|i: int|
            0 <= i < queue.len() ==> (#[trigger] queue[i]).quantity.units() > 0 && resting(
                queue[i].quantity,
            ),
    ensures
        ({
            let out = fill_queue(queue, taker, price, quantity);
            orderly(quantity, out.fills, resting)
        }),
    decreases queue.len(),
{
    if queue.len() > 0 && quantity.units() > 0 {
        let maker = queue[0];
        let fill = fill_with(maker.id, maker.quantity, taker, price, quantity);
        let left = difference(quantity, fill.quantity);
        let one = seq![fill];
        lemma_one_fill(quantity, fill);
        assert(one.drop_last() =~= Seq::<Fill>::empty());
        assert(orderly(quantity, one.drop_last(), resting));
        assert(orderly(quantity, one, resting));
        if fill.quantity.units() == maker.quantity.units() {
            let rest = fill_queue(queue.skip(1), taker, price, left);
            lemma_fill_queue_orderly(queue.skip(1), taker, price, left, resting);
            lemma_orderly_concat(quantity, one, rest.fills, resting);
        }
    }
}

/// First come, first served: the trades go to the orders at the front of the queue, in their
/// order and at the price of the level. Each of those orders but the last is filled whole and
/// leaves; what is left of the last one, if anything, stays at the front.
pub proof fn lemma_first_come_first_served(
    queue: Seq<Order>,
    taker: OrderId,
    price: Price,
    quantity: Quantity,
)
    ensures
        ({
            let out = fill_queue(queue, taker, price, quantity);
            let (n, k) = (out.fills.len() as int, out.retired.len() as int);
            &&& n <= queue.len()
            &&& k == n || k == n - 1
            &&& forall|i: int|
                0 <= i < n ==> {
                    &&& (#[trigger] out.fills[i]).maker_order_id == queue[i].id
                    &&& out.fills[i].taker_order_id == taker
                    &&& out.fills[i].price == price
                }
            &&& forall|i: int|
                0 <= i < k ==> (#[trigger] out.retired[i]) == queue[i].id
                    && out.fills[i].quantity.units() == queue[i].quantity.units()
            &&& out.queue == if k == n {
                queue.skip(k)
            } else {
                queue.skip(k).update(
                    0,
                    Order {
                        quantity: difference(queue[k].quantity, out.fills[k].quantity),
                        ..queue[k]
                    },
                )
            }
        }),
    decreases queue.len(),
{
    let out = fill_queue(queue, taker, price, quantity);
    if queue.len() > 0 && quantity.units() > 0 {
        let maker = queue[0];
        let fill = fill_with(maker.id, maker.quantity, taker, price, quantity);
        if fill.quantity.units() == maker.quantity.units() {
            let left = difference(quantity, fill.quantity);
            let rest = fill_queue(queue.skip(1), taker, price, left);
            lemma_first_come_first_served(queue.skip(1), taker, price, left);
            let (n, k) = (out.fills.len() as int, out.retired.len() as int);
            assert forall|i: int| 0 <= i < n implies {
                &&& (#[trigger] out.fills[i]).maker_order_id == queue[i].id
                &&& out.fills[i].taker_order_id == taker
                &&& out.fills[i].price == price
            } by {
                if i > 0 {
                    assert(out.fills[i] == rest.fills[i - 1]);
                    assert(queue.skip(1)[i - 1] == queue[i]);
                }
            }
            assert forall|i: int| 0 <= i < k implies (#[trigger] out.retired[i]) == queue[i].id
                && out.fills[i].quantity.units() == queue[i].quantity.units() by {
                if i > 0 {
                    assert(out.retired[i] == rest.retired[i - 1]);
                    assert(out.fills[i] == rest.fills[i - 1]);
                    assert(queue.skip(1)[i - 1] == queue[i]);
                }
            }
            assert(queue.skip(1).skip(k - 1) =~= queue.skip(k));
            assert(out.queue == rest.queue);
            if k < n {
                assert(queue.skip(1)[k - 1] == queue[k]);
                assert(out.fills[k] == rest.fills[k - 1]);
            }
        } else {
            assert(queue.skip(0) =~= queue);
            assert(out.fills[0] == fill);
            assert(out.queue == queue.update(
                0,
                Order { quantity: difference(maker.quantity, fill.quantity), ..maker },
            ));
        }
    } else {
        assert(queue.skip(0) =~= queue);
    }
}

} // verus!
