//! How an incoming order is served from those that wait in line.
use crate::decimal::{difference, lemma_difference_of_self};
use crate::matching::{
    fill_queue, fill_with, lemma_less_fills_concat, lemma_one_fill, less_fills, without,
};
use crate::order::Order;
use crate::types::{Fill, OrderId, Price, Quantity};
use vstd::prelude::*;

verus! {

/// Whether a trade took all of an order.
pub open spec fn took_all(fill: Fill, maker: Order) -> bool {
    fill.quantity.units() == maker.quantity.units()
}

/// Whether a trade is for all of an order or for all that is left of the incoming quantity,
/// whichever is less, at the price of the order.
pub open spec fn serves(maker: Order, taker: OrderId, left: Quantity, fill: Fill) -> bool {
    &&& left.units() > 0
    &&& fill.maker_order_id == maker.id
    &&& fill.taker_order_id == taker
    &&& fill.price == maker.price
    &&& fill.quantity == if left.units() > maker.quantity.units() {
        maker.quantity
    } else {
        left
    }
}

/// Whether these are the trades of `quantity` with the orders of a line, from its front. Each trade
/// is with the next in line, at that order's price, and for all of that order or for all that is
/// left of the quantity, whichever is less. They go on until the line or the quantity is used up.
pub open spec fn served(
    line: Seq<Order>,
    taker: OrderId,
    quantity: Quantity,
    fills: Seq<Fill>,
) -> bool {
    &&& fills.len() <= line.len()
    &&& forall|k: int|
        0 <= k < fills.len() ==> serves(
            line[k],
            taker,
            less_fills(quantity, fills.take(k)),
            #[trigger] fills[k],
        )
    &&& fills.len() == line.len() || less_fills(quantity, fills).units() <= 0
}

/// Whether these are the ids of the orders that the trades took all of: those of every trade, or of
/// every trade but the last.
pub open spec fn used_up(line: Seq<Order>, fills: Seq<Fill>, retired: Seq<OrderId>) -> bool {
    &&& retired.len() <= fills.len() <= retired.len() + 1
    &&& forall|k: int| 0 <= k < retired.len() ==> #[trigger] retired[k] == fills[k].maker_order_id
    &&& forall|k: int|
        0 <= k < fills.len() ==> (took_all(#[trigger] fills[k], line[k]) <==> k < retired.len())
}

/// An id is among those exactly where a trade took all of an order with it.
pub proof fn lemma_used_up(
    line: Seq<Order>,
    fills: Seq<Fill>,
    retired: Seq<OrderId>,
    id: OrderId,
)
    requires
        used_up(line, fills, retired),
    ensures
        retired.contains(id) <==> exists|k: int|
            0 <= k < fills.len() && took_all(#[trigger] fills[k], line[k])
                && fills[k].maker_order_id == id,
{
    if retired.contains(id) {
        let k = choose|k: int| 0 <= k < retired.len() && retired[k] == id;
        assert(took_all(fills[k], line[k]));
    }
    if exists|k: int|
        0 <= k < fills.len() && took_all(#[trigger] fills[k], line[k]) && fills[k].maker_order_id
            == id {
        let k = choose|k: int|
            0 <= k < fills.len() && took_all(#[trigger] fills[k], line[k])
                && fills[k].maker_order_id == id;
        assert(retired[k] == id);
    }
}

/// Where the last trade did not take all of its order, nothing is left of the quantity.
proof fn lemma_part_taken(
    line: Seq<Order>,
    taker: OrderId,
    quantity: Quantity,
    fills: Seq<Fill>,
    retired: Seq<OrderId>,
)
    requires
        served(line, taker, quantity, fills),
        used_up(line, fills, retired),
        retired.len() < fills.len(),
    ensures
        less_fills(quantity, fills).units() <= 0,
{
    let k = fills.len() - 1;
    assert(fills.take(k) =~= fills.drop_last());
    assert(!took_all(fills[k], line[k]));
    lemma_difference_of_self(less_fills(quantity, fills.take(k)));
}

/// Being served from one line and then from another is being served from the two, one behind the
/// other.
pub proof fn lemma_served_concat(
    a: Seq<Order>,
    b: Seq<Order>,
    taker: OrderId,
    quantity: Quantity,
    x: Seq<Fill>,
    y: Seq<Fill>,
    gone: Seq<OrderId>,
    went: Seq<OrderId>,
)
    requires
        served(a, taker, quantity, x),
        used_up(a, x, gone),
        served(b, taker, less_fills(quantity, x), y),
        used_up(b, y, went),
    ensures
        served(a + b, taker, quantity, x + y),
        used_up(a + b, x + y, gone + went),
{
    if y.len() == 0 {
        lemma_less_fills_concat(quantity, x, y);
        assert(x + y =~= x);
        assert(gone + went =~= gone);
        assert(less_fills(quantity, x) == less_fills(less_fills(quantity, x), y));
        if x.len() == a.len() {
            assert(b.len() == 0 || less_fills(quantity, x).units() <= 0);
        }
        assert forall|k: int| 0 <= k < x.len() implies (a + b)[k] == a[k] by {}
    } else {
        assert(y.take(0) =~= Seq::<Fill>::empty());
        assert(y[0].maker_order_id == b[0].id);
        if gone.len() < x.len() {
            lemma_part_taken(a, taker, quantity, x, gone);
        }
        lemma_served_on(a, b, taker, quantity, x, y);
        lemma_used_up_on(a, b, x, y, gone, went);
    }
}

/// Being served from a whole line and then from another.
proof fn lemma_served_on(
    a: Seq<Order>,
    b: Seq<Order>,
    taker: OrderId,
    quantity: Quantity,
    x: Seq<Fill>,
    y: Seq<Fill>,
)
    requires
        served(a, taker, quantity, x),
        served(b, taker, less_fills(quantity, x), y),
        x.len() == a.len(),
    ensures
        served(a + b, taker, quantity, x + y),
{
    let (fills, line) = (x + y, a + b);
    lemma_less_fills_concat(quantity, x, y);
    assert forall|k: int| 0 <= k < fills.len() implies serves(
        line[k],
        taker,
        less_fills(quantity, fills.take(k)),
        #[trigger] fills[k],
    ) by {
        lemma_left_on(quantity, x, y, k);
        if k < x.len() {
            assert(fills[k] == x[k] && line[k] == a[k]);
        } else {
            let j = k - x.len();
            assert(fills[k] == y[j] && line[k] == b[j]);
        }
    }
}

/// What is left before trade `k` of two runs of trades.
proof fn lemma_left_on(quantity: Quantity, x: Seq<Fill>, y: Seq<Fill>, k: int)
    requires
        0 <= k <= x.len() + y.len(),
    ensures
        less_fills(quantity, (x + y).take(k)) == if k <= x.len() {
            less_fills(quantity, x.take(k))
        } else {
            less_fills(less_fills(quantity, x), y.take(k - x.len()))
        },
        k == x.len() ==> less_fills(quantity, (x + y).take(k)) == less_fills(
            less_fills(quantity, x),
            y.take(0),
        ),
{
    if k <= x.len() {
        assert((x + y).take(k) =~= x.take(k));
        if k == x.len() {
            assert(x.take(k) =~= x);
            assert(y.take(0) =~= Seq::<Fill>::empty());
        }
    } else {
        assert((x + y).take(k) =~= x + y.take(k - x.len()));
        lemma_less_fills_concat(quantity, x, y.take(k - x.len()));
    }
}

/// Using up a whole line and then another.
proof fn lemma_used_up_on(
    a: Seq<Order>,
    b: Seq<Order>,
    x: Seq<Fill>,
    y: Seq<Fill>,
    gone: Seq<OrderId>,
    went: Seq<OrderId>,
)
    requires
        used_up(a, x, gone),
        used_up(b, y, went),
        x.len() == a.len(),
        y.len() <= b.len(),
        gone.len() == x.len(),
    ensures
        used_up(a + b, x + y, gone + went),
{
    let (fills, line, retired) = (x + y, a + b, gone + went);
    assert forall|k: int| 0 <= k < fills.len() implies (took_all(#[trigger] fills[k], line[k])
        <==> k < retired.len()) by {
        if k < x.len() {
            assert(fills[k] == x[k] && line[k] == a[k]);
        } else {
            assert(fills[k] == y[k - x.len()] && line[k] == b[k - x.len()]);
        }
    }
    assert forall|k: int| 0 <= k < retired.len() implies #[trigger] retired[k]
        == fills[k].maker_order_id by {
        if k < gone.len() {
            assert(retired[k] == gone[k] && fills[k] == x[k]);
        } else {
            assert(retired[k] == went[k - gone.len()] && fills[k] == y[k - gone.len()]);
        }
    }
}

/// A queue of orders is a line of them, each at the price of the queue.
pub proof fn lemma_queue_served(
    queue: Seq<Order>,
    taker: OrderId,
    price: Price,
    quantity: Quantity,
)
    ensures
        ({
            let out = fill_queue(queue, taker, price, quantity);
            let line = at_price(queue, price);
            &&& served(line, taker, quantity, out.fills)
            &&& used_up(line, out.fills, out.retired)
            &&& out.remaining == less_fills(quantity, out.fills)
        }),
    decreases queue.len(),
{
    let out = fill_queue(queue, taker, price, quantity);
    let line = at_price(queue, price);
    crate::matching::lemma_fill_queue_remaining(queue, taker, price, quantity);
    if queue.len() > 0 && quantity.units() > 0 {
        let maker = queue[0];
        let fill = fill_with(maker.id, maker.quantity, taker, price, quantity);
        let left = difference(quantity, fill.quantity);
        let one = seq![fill];
        lemma_one_fill(quantity, fill);
        assert(one.take(0) =~= Seq::<Fill>::empty());
        if fill.quantity.units() == maker.quantity.units() {
            let rest = fill_queue(queue.skip(1), taker, price, left);
            lemma_queue_served(queue.skip(1), taker, price, left);
            let first = seq![line[0]];
            let gone = seq![maker.id];
            assert(served(first, taker, quantity, one));
            assert(used_up(first, one, gone));
            lemma_served_concat(
                first,
                at_price(queue.skip(1), price),
                taker,
                quantity,
                one,
                rest.fills,
                gone,
                rest.retired,
            );
            assert(first + at_price(queue.skip(1), price) =~= line);
        } else {
            lemma_difference_of_self(quantity);
        }
    }
}

/// The orders of a queue, each at one price.
pub open spec fn at_price(queue: Seq<Order>, price: Price) -> Seq<Order> {
    queue.map_values(|order: Order| Order { price, ..order })
}

/// Whether an index loses the ids of the orders that trades took all of, and nothing else.
pub open spec fn loses_used_up<V>(
    before: Map<OrderId, V>,
    line: Seq<Order>,
    fills: Seq<Fill>,
    after: Map<OrderId, V>,
) -> bool {
    &&& forall|id: OrderId| #[trigger]
        after.contains_key(id) <==> before.contains_key(id) && !exists|k: int|
            0 <= k < fills.len() && took_all(#[trigger] fills[k], line[k])
                && fills[k].maker_order_id == id
    &&& forall|id: OrderId| #[trigger] after.contains_key(id) ==> after[id] == before[id]
}

/// So does it without the entry of one id.
pub proof fn lemma_loses_others<V>(
    before: Map<OrderId, V>,
    line: Seq<Order>,
    fills: Seq<Fill>,
    after: Map<OrderId, V>,
    id: OrderId,
)
    requires
        loses_used_up(before, line, fills, after),
    ensures
        loses_used_up(before.remove(id), line, fills, after.remove(id)),
{
    let (b, a) = (before.remove(id), after.remove(id));
    assert forall|x: OrderId| #[trigger]
        a.contains_key(x) <==> b.contains_key(x) && !exists|k: int|
            0 <= k < fills.len() && took_all(#[trigger] fills[k], line[k])
                && fills[k].maker_order_id == x by {
        assert(after.contains_key(x) <==> before.contains_key(x) && !exists|k: int|
            0 <= k < fills.len() && took_all(#[trigger] fills[k], line[k])
                && fills[k].maker_order_id == x);
    }
}

/// Leaving out the ids of the orders that are used up is that.
pub proof fn lemma_loses_used_up<V>(
    before: Map<OrderId, V>,
    line: Seq<Order>,
    fills: Seq<Fill>,
    retired: Seq<OrderId>,
)
    requires
        used_up(line, fills, retired),
    ensures
        loses_used_up(before, line, fills, without(before, retired)),
{
    let after = without(before, retired);
    assert forall|id: OrderId| #[trigger]
        after.contains_key(id) <==> before.contains_key(id) && !exists|k: int|
            0 <= k < fills.len() && took_all(#[trigger] fills[k], line[k])
                && fills[k].maker_order_id == id by {
        lemma_used_up(line, fills, retired, id);
    }
}

} // verus!
