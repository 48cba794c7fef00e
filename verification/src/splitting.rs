//! An order may as well come in two parts: the makers, what is left and the book are the same.
use crate::amounts::{
    amount, filled_of, ladder_amount, lemma_filled_all, lemma_left_positive,
    lemma_makers_exact_rest, lemma_side_conserves, makers_exact, sweep_makers_exact,
};
use crate::book_laws::{
    lemma_ladder_without_best, lemma_sweep_orderly, lemma_sweep_takes_retired, taken_from,
};
use crate::decimal::{difference, lemma_difference_exact};
use crate::ladder::{
    ahead, best, is_best, ladder_wf, lemma_one_best, level_wf, queue_wf, rank, sweep, Level, Rank,
};
use crate::matching::{
    exact_steps, fill_queue, fill_with, filled, lemma_conservation, lemma_fill_queue_remaining,
    lemma_first_come_first_served, lemma_less_fills_concat, lemma_one_fill,
};
use crate::order::Order;
use crate::orderbook::{opposite, BookState};
use crate::types::{OrderId, Price, Quantity, Side};
use vstd::prelude::*;

verus! {

/// An order, with its quantity by value.
pub struct Entry {
    pub id: OrderId,
    pub price: Price,
    /// The quantity in units of `10^-28`.
    pub units: int,
}

/// The orders at one price, with their quantities by value.
pub struct ValueLevel {
    pub price: Price,
    pub orders: Seq<Entry>,
}

/// A queue, with the quantities by value.
pub open spec fn values_of(queue: Seq<Order>) -> Seq<Entry> {
    queue.map_values(
        |order: Order| Entry { id: order.id, price: order.price, units: order.quantity.units() },
    )
}

/// A side of a book, with the quantities by value: sides that have this in common differ at most
/// in the number of decimal places of their quantities.
pub open spec fn values(ladder: Map<Rank, Level>) -> Map<Rank, ValueLevel> {
    ladder.map_values(
        |level: Level| ValueLevel { price: level.price, orders: values_of(level.orders) },
    )
}

/// What is left of a queue once `quantity` was taken from its front.
spec fn drained(orders: Seq<Entry>, quantity: int) -> Seq<Entry>
    decreases orders.len(),
{
    if orders.len() == 0 || quantity <= 0 {
        orders
    } else if orders[0].units <= quantity {
        drained(orders.skip(1), quantity - orders[0].units)
    } else {
        orders.update(0, Entry { units: orders[0].units - quantity, ..orders[0] })
    }
}

/// The sum of the quantities of a queue.
spec fn sum_of(orders: Seq<Entry>) -> int
    decreases orders.len(),
{
    if orders.len() == 0 {
        0
    } else {
        orders[0].units + sum_of(orders.skip(1))
    }
}

/// Every order of a queue is for something.
spec fn positive(orders: Seq<Entry>) -> bool {
    forall|i: int| 0 <= i < orders.len() ==> (#[trigger] orders[i]).units > 0
}

/// Whether `first` is the best of some ranks.
spec fn is_best_rank(ranks: Set<Rank>, first: Rank) -> bool {
    &&& ranks.contains(first)
    &&& forall|other: Rank| #[trigger] ranks.contains(other) ==> !ahead(other, first)
}

/// The best of some ranks.
spec fn best_rank(ranks: Set<Rank>) -> Rank {
    choose|first: Rank| is_best_rank(ranks, first)
}

/// What is left of a side once `quantity` was taken from it, best price first, as far as the rank
/// `limit`.
spec fn drain(side: Map<Rank, ValueLevel>, limit: Rank, quantity: int) -> Map<Rank, ValueLevel>
    decreases side.dom().len(),
    when side.dom().finite()
{
    let first = best_rank(side.dom());
    if quantity <= 0 || !is_best_rank(side.dom(), first) || ahead(limit, first) {
        side
    } else {
        let level = side[first];
        let left = drained(level.orders, quantity);
        if left.len() > 0 {
            side.insert(first, ValueLevel { orders: left, ..level })
        } else {
            drain(side.remove(first), limit, quantity - sum_of(level.orders))
        }
    }
}

/// Taking from a queue.
proof fn lemma_drained(orders: Seq<Entry>, quantity: int)
    requires
        positive(orders),
        quantity >= 0,
    ensures
        positive(drained(orders, quantity)),
        sum_of(orders) >= 0,
        quantity >= sum_of(orders) <==> drained(orders, quantity).len() == 0,
        quantity <= sum_of(orders) ==> sum_of(drained(orders, quantity)) == sum_of(orders)
            - quantity,
    decreases orders.len(),
{
    if orders.len() > 0 {
        let rest = orders.skip(1);
        assert(positive(rest));
        assert(orders[0].units > 0);
        lemma_drained(rest, 0);
        if quantity > 0 {
            if orders[0].units <= quantity {
                lemma_drained(rest, quantity - orders[0].units);
            } else {
                let left = drained(orders, quantity);
                assert(left.skip(1) =~= rest);
            }
        }
    }
}

/// Taking twice is taking all at once.
proof fn lemma_drained_twice(orders: Seq<Entry>, a: int, b: int)
    requires
        positive(orders),
        a >= 0,
        b >= 0,
    ensures
        drained(drained(orders, a), b) == drained(orders, a + b),
    decreases orders.len(),
{
    if orders.len() > 0 && a > 0 {
        let rest = orders.skip(1);
        assert(positive(rest));
        if orders[0].units <= a {
            lemma_drained_twice(rest, a - orders[0].units, b);
        } else {
            let left = drained(orders, a);
            assert(left.skip(1) =~= rest);
            if b > 0 && left[0].units > b {
                assert(drained(left, b) =~= drained(orders, a + b));
            }
        }
    }
}

/// There is one best rank at most.
proof fn lemma_one_best_rank(ranks: Set<Rank>, first: Rank)
    requires
        is_best_rank(ranks, first),
    ensures
        best_rank(ranks) == first,
{
    let other = best_rank(ranks);
    assert(is_best_rank(ranks, other));
    assert(!ahead(first, other) && !ahead(other, first));
}

/// Taking from a side twice is taking all at once.
proof fn lemma_drain_twice(side: Map<Rank, ValueLevel>, limit: Rank, a: int, b: int)
    requires
        side.dom().finite(),
        forall|r: Rank| #[trigger] side.contains_key(r) ==> positive(side[r].orders),
        a >= 0,
        b >= 0,
    ensures
        drain(side, limit, a).dom().finite(),
        drain(drain(side, limit, a), limit, b) == drain(side, limit, a + b),
    decreases side.dom().len(),
{
    let first = best_rank(side.dom());
    if a > 0 && is_best_rank(side.dom(), first) && !ahead(limit, first) {
        let level = side[first];
        assert(side.contains_key(first));
        assert(positive(level.orders));
        let left = drained(level.orders, a);
        let others = side.remove(first);
        lemma_drained(level.orders, a);
        lemma_drained(level.orders, a + b);
        lemma_drained_twice(level.orders, a, b);
        if left.len() > 0 {
            let once = side.insert(first, ValueLevel { orders: left, ..level });
            assert(once.dom() =~= side.dom());
            assert(once.remove(first) =~= others);
            lemma_drained(left, b);
            if b > 0 {
                if drained(left, b).len() > 0 {
                    assert(drain(once, limit, b) =~= drain(side, limit, a + b));
                }
            }
        } else {
            assert(others.dom().len() < side.dom().len());
            assert forall|r: Rank| #[trigger] others.contains_key(r) implies positive(
                others[r].orders,
            ) by {
                assert(side.contains_key(r));
            }
            lemma_drain_twice(others, limit, a - sum_of(level.orders), b);
        }
    }
}

/// A queue loses by value what the incoming order takes, where nothing rounds.
proof fn lemma_queue_values(
    queue: Seq<Order>,
    taker: OrderId,
    price: Price,
    quantity: Quantity,
)
    requires
        queue_wf(queue),
        quantity.valid(),
        makers_exact(queue, taker, price, quantity),
        exact_steps(quantity, fill_queue(queue, taker, price, quantity).fills),
    ensures
        ({
            let out = fill_queue(queue, taker, price, quantity);
            &&& values_of(out.queue) == drained(values_of(queue), quantity.units())
            &&& out.remaining.valid()
            &&& out.queue.len() == 0 ==> out.remaining.units() == quantity.units() - sum_of(
                values_of(queue),
            )
        }),
    decreases queue.len(),
{
    let out = fill_queue(queue, taker, price, quantity);
    lemma_fill_queue_remaining(queue, taker, price, quantity);
    lemma_conservation(quantity, out.fills);
    if queue.len() > 0 && quantity.units() > 0 {
        let maker = queue[0];
        let fill = fill_with(maker.id, maker.quantity, taker, price, quantity);
        let one = seq![fill];
        lemma_one_fill(quantity, fill);
        assert(values_of(queue)[0].units == maker.quantity.units());
        assert(values_of(queue).skip(1) =~= values_of(queue.skip(1)));
        if fill.quantity.units() == maker.quantity.units() {
            let left = difference(quantity, fill.quantity);
            let rest = fill_queue(queue.skip(1), taker, price, left);
            lemma_makers_exact_rest(queue, taker, price, quantity);
            lemma_less_fills_concat(quantity, one, rest.fills);
            lemma_conservation(quantity, one);
            lemma_queue_values(queue.skip(1), taker, price, left);
        } else {
            assert(out.fills[0] == fill);
            lemma_difference_exact(maker.quantity, fill.quantity);
            assert(values_of(out.queue) =~= drained(values_of(queue), quantity.units()));
        }
    }
}

/// The quantities of a queue are for something by value too.
proof fn lemma_values_positive(queue: Seq<Order>)
    requires
        queue_wf(queue),
    ensures
        positive(values_of(queue)),
{
    assert forall|i: int| 0 <= i < values_of(queue).len() implies (
    #[trigger] values_of(queue)[i]).units > 0 by {
        assert(queue[i].quantity.units() > 0);
    }
}

/// A side loses by value what the incoming order takes, where nothing rounds, and stays well
/// formed.
proof fn lemma_side_values(
    side: Side,
    ladder: Map<Rank, Level>,
    taker: OrderId,
    limit: Rank,
    quantity: Quantity,
)
    requires
        ladder_wf(side, ladder),
        quantity.valid(),
        sweep_makers_exact(ladder, taker, limit, quantity),
        exact_steps(quantity, sweep(ladder, taker, limit, quantity).fills),
    ensures
        ({
            let out = sweep(ladder, taker, limit, quantity);
            &&& values(out.ladder) == drain(values(ladder), limit, quantity.units())
            &&& ladder_wf(side, out.ladder)
        }),
    decreases ladder.dom().len(),
{
    let first = best(ladder);
    let given = values(ladder);
    assert(given.dom() =~= ladder.dom());
    if is_best(ladder, first) {
        assert forall|other: Rank| #[trigger] given.dom().contains(other) implies !ahead(
            other,
            first,
        ) by {
            assert(ladder.contains_key(other));
        }
        lemma_one_best_rank(given.dom(), first);
    } else {
        let b = best_rank(given.dom());
        if is_best_rank(given.dom(), b) {
            assert(is_best(ladder, b)) by {
                assert forall|other: Rank| #[trigger] ladder.contains_key(other) implies !ahead(
                    other,
                    b,
                ) by {
                    assert(given.dom().contains(other));
                }
            }
        }
    }
    if !(quantity.units() <= 0 || !is_best(ladder, first) || ahead(limit, first)) {
        let level = ladder[first];
        let out = sweep(ladder, taker, limit, quantity);
        let here = fill_queue(level.orders, taker, level.price, quantity);
        assert(level_wf(level));
        lemma_fill_queue_remaining(level.orders, taker, level.price, quantity);
        lemma_first_come_first_served(level.orders, taker, level.price, quantity);
        lemma_left_positive(level.orders, taker, level.price, quantity);
        if here.queue.len() > 0 {
            lemma_queue_values(level.orders, taker, level.price, quantity);
            let now = Level { orders: here.queue, ..level };
            let k = here.retired.len() as int;
            assert forall|i: int| 0 <= i < now.orders.len() implies (
            #[trigger] now.orders[i]).price.units() == now.price.units() by {
                assert(now.orders[i].price == level.orders[i + k].price);
            }
            assert(level_wf(now));
            assert forall|r: Rank| #[trigger] out.ladder.contains_key(r) implies level_wf(
                out.ladder[r],
            ) && r == rank(side, out.ladder[r].price) by {
                if r != first {
                    assert(ladder.contains_key(r));
                }
            }
            assert(values(out.ladder) =~= given.insert(
                first,
                ValueLevel {
                    orders: drained(values_of(level.orders), quantity.units()),
                    ..given[first]
                },
            ));
        } else {
            let others = ladder.remove(first);
            let rest = sweep(others, taker, limit, here.remaining);
            lemma_ladder_without_best(side, ladder);
            lemma_less_fills_concat(quantity, here.fills, rest.fills);
            lemma_queue_values(level.orders, taker, level.price, quantity);
            lemma_side_values(side, others, taker, limit, here.remaining);
            assert(values(others) =~= given.remove(first));
        }
    }
}

/// What a queue holds is a matter of values.
proof fn lemma_same_amount(
    a: Seq<Order>,
    b: Seq<Order>,
    price: Price,
    pick: spec_fn(OrderId, Price) -> bool,
)
    requires
        values_of(a) == values_of(b),
    ensures
        amount(a, price, pick) == amount(b, price, pick),
    decreases a.len(),
{
    assert(values_of(a).len() == a.len() && values_of(b).len() == b.len());
    if a.len() > 0 {
        let (x, y) = (values_of(a)[0], values_of(b)[0]);
        assert(x.id == a[0].id && x.units == a[0].quantity.units());
        assert(y.id == b[0].id && y.units == b[0].quantity.units());
        assert(values_of(a.skip(1)) =~= values_of(a).skip(1));
        assert(values_of(b.skip(1)) =~= values_of(b).skip(1));
        lemma_same_amount(a.skip(1), b.skip(1), price, pick);
    }
}

/// What a side holds is a matter of values.
proof fn lemma_same_side_amount(
    a: Map<Rank, Level>,
    b: Map<Rank, Level>,
    pick: spec_fn(OrderId, Price) -> bool,
)
    requires
        a.dom().finite(),
        b.dom().finite(),
        values(a) == values(b),
    ensures
        ladder_amount(a, pick) == ladder_amount(b, pick),
    decreases a.dom().len(),
{
    assert(values(a).dom() =~= a.dom());
    assert(values(b).dom() =~= b.dom());
    let first = best(a);
    if is_best(a, first) {
        assert(is_best(b, first)) by {
            assert forall|other: Rank| #[trigger] b.contains_key(other) implies !ahead(
                other,
                first,
            ) by {
                assert(a.dom().contains(other));
                assert(a.contains_key(other));
            }
            assert(b.dom().contains(first));
        }
        lemma_one_best(b, first);
        let (x, y) = (values(a)[first], values(b)[first]);
        assert(x.price == a[first].price && x.orders == values_of(a[first].orders));
        assert(y.price == b[first].price && y.orders == values_of(b[first].orders));
        lemma_same_amount(a[first].orders, b[first].orders, a[first].price, pick);
        assert(values(a.remove(first)) =~= values(a).remove(first));
        assert(values(b.remove(first)) =~= values(b).remove(first));
        lemma_same_side_amount(a.remove(first), b.remove(first), pick);
    } else if is_best(b, best(b)) {
        let other = best(b);
        assert(is_best(a, other)) by {
            assert forall|x: Rank| #[trigger] a.contains_key(x) implies !ahead(x, other) by {
                assert(b.dom().contains(x));
                assert(b.contains_key(x));
            }
            assert(a.dom().contains(other));
        }
    }
}

/// Whether nothing rounds in a trade with a side.
pub open spec fn nothing_rounds(
    ladder: Map<Rank, Level>,
    taker: OrderId,
    limit: Rank,
    quantity: Quantity,
) -> bool {
    &&& exact_steps(quantity, sweep(ladder, taker, limit, quantity).fills)
    &&& sweep_makers_exact(ladder, taker, limit, quantity)
}

/// An order may as well come in two parts. Where nothing rounds, the side is left with the same
/// orders for the same quantities, as much is left of the order, every maker trades as much at
/// the same price, and the same makers are filled whole.
pub proof fn lemma_split(
    side: Side,
    ladder: Map<Rank, Level>,
    taker: OrderId,
    limit: Rank,
    a: Quantity,
    b: Quantity,
    both: Quantity,
)
    requires
        ladder_wf(side, ladder),
        a.valid(),
        b.valid(),
        both.valid(),
        a.units() > 0,
        b.units() > 0,
        both.units() == a.units() + b.units(),
        nothing_rounds(ladder, taker, limit, a),
        nothing_rounds(sweep(ladder, taker, limit, a).ladder, taker, limit, b),
        nothing_rounds(ladder, taker, limit, both),
    ensures
        ({
            let first = sweep(ladder, taker, limit, a);
            let second = sweep(first.ladder, taker, limit, b);
            let whole = sweep(ladder, taker, limit, both);
            &&& values(second.ladder) == values(whole.ladder)
            &&& first.remaining.units() + second.remaining.units() == whole.remaining.units()
            &&& forall|pick: spec_fn(OrderId, Price) -> bool|
                filled_of(first.fills, pick) + filled_of(second.fills, pick)
                    == #[trigger] filled_of(whole.fills, pick)
            &&& forall|id: OrderId|
                first.retired.contains(id) || second.retired.contains(id)
                    <==> #[trigger] whole.retired.contains(id)
        }),
{
    let first = sweep(ladder, taker, limit, a);
    let second = sweep(first.ladder, taker, limit, b);
    let whole = sweep(ladder, taker, limit, both);
    lemma_side_values(side, ladder, taker, limit, a);
    lemma_side_values(side, first.ladder, taker, limit, b);
    lemma_side_values(side, ladder, taker, limit, both);
    assert(values(ladder).dom() =~= ladder.dom());
    assert forall|r: Rank| #[trigger] values(ladder).contains_key(r) implies positive(
        values(ladder)[r].orders,
    ) by {
        assert(ladder.contains_key(r));
        assert(level_wf(ladder[r]));
        lemma_values_positive(ladder[r].orders);
    }
    lemma_drain_twice(values(ladder), limit, a.units(), b.units());
    assert(values(second.ladder) == values(whole.ladder));
    assert forall|pick: spec_fn(OrderId, Price) -> bool|
        filled_of(first.fills, pick) + filled_of(second.fills, pick) == #[trigger] filled_of(
            whole.fills,
            pick,
        ) by {
        lemma_side_conserves(ladder, taker, limit, a, pick);
        lemma_side_conserves(first.ladder, taker, limit, b, pick);
        lemma_side_conserves(ladder, taker, limit, both, pick);
        lemma_same_side_amount(second.ladder, whole.ladder, pick);
    }
    let all = |id: OrderId, price: Price| true;
    let resting = |resting: Quantity| true;
    assert(filled_of(first.fills, all) + filled_of(second.fills, all) == filled_of(
        whole.fills,
        all,
    ));
    lemma_filled_all(first.fills);
    lemma_filled_all(second.fills);
    lemma_filled_all(whole.fills);
    lemma_sweep_orderly(side, ladder, taker, limit, a, resting);
    lemma_sweep_orderly(side, first.ladder, taker, limit, b, resting);
    lemma_sweep_orderly(side, ladder, taker, limit, both, resting);
    lemma_conservation(a, first.fills);
    lemma_conservation(b, second.fills);
    lemma_conservation(both, whole.fills);
    lemma_split_retired(ladder, taker, limit, a, b, both);
}

/// The makers that are filled whole are the same, where the side is left the same.
proof fn lemma_split_retired(
    ladder: Map<Rank, Level>,
    taker: OrderId,
    limit: Rank,
    a: Quantity,
    b: Quantity,
    both: Quantity,
)
    requires
        ladder.dom().finite(),
        sweep(ladder, taker, limit, a).ladder.dom().finite(),
        values(sweep(sweep(ladder, taker, limit, a).ladder, taker, limit, b).ladder) == values(
            sweep(ladder, taker, limit, both).ladder,
        ),
    ensures
        ({
            let first = sweep(ladder, taker, limit, a);
            let second = sweep(first.ladder, taker, limit, b);
            let whole = sweep(ladder, taker, limit, both);
            forall|id: OrderId|
                first.retired.contains(id) || second.retired.contains(id)
                    <==> #[trigger] whole.retired.contains(id)
        }),
{
    let first = sweep(ladder, taker, limit, a);
    let second = sweep(first.ladder, taker, limit, b);
    let whole = sweep(ladder, taker, limit, both);
    let (l1, l2, l3) = (first.ladder, second.ladder, whole.ladder);
    lemma_sweep_takes_retired(ladder, taker, limit, a);
    lemma_sweep_takes_retired(l1, taker, limit, b);
    lemma_sweep_takes_retired(ladder, taker, limit, both);
    assert(values(l2).dom() =~= l2.dom());
    assert(values(l3).dom() =~= l3.dom());
    assert forall|r: Rank| ladder.contains_key(r) implies #[trigger] taken_from(ladder, l3, r) == (
    if l1.contains_key(r) {
        taken_from(ladder, l1, r) + taken_from(l1, l2, r)
    } else {
        taken_from(ladder, l1, r)
    }) && (l1.contains_key(r) ==> taken_from(l1, l2, r) >= 0) by {
        assert(l2.dom().contains(r) <==> l3.dom().contains(r));
        if l2.contains_key(r) {
            assert(l1.dom().contains(r));
            assert(values(l2)[r] == values(l3)[r]);
            assert(values_of(l2[r].orders).len() == values_of(l3[r].orders).len());
            assert(taken_from(l1, l2, r) >= 0);
        }
    }
    assert forall|id: OrderId|
        first.retired.contains(id) || second.retired.contains(id)
            <==> #[trigger] whole.retired.contains(id) by {
        if whole.retired.contains(id) {
            let (r, i) = choose|r: Rank, i: int|
                ladder.contains_key(r) && 0 <= i < taken_from(ladder, l3, r) && (
                #[trigger] ladder[r].orders[i]).id == id;
            let k = taken_from(ladder, l1, r);
            assert(taken_from(ladder, l3, r) >= 0);
            if i < k {
                assert(first.retired.contains(ladder[r].orders[i].id));
            } else {
                let j = i - k;
                assert(l1.contains_key(r));
                assert(l1[r].orders[j].id == ladder[r].orders[j + k].id);
                assert(second.retired.contains(l1[r].orders[j].id));
            }
        }
        if first.retired.contains(id) {
            let (r, i) = choose|r: Rank, i: int|
                ladder.contains_key(r) && 0 <= i < taken_from(ladder, l1, r) && (
                #[trigger] ladder[r].orders[i]).id == id;
            assert(i < taken_from(ladder, l3, r));
            assert(whole.retired.contains(ladder[r].orders[i].id));
        }
        if second.retired.contains(id) {
            let (r, j) = choose|r: Rank, j: int|
                l1.contains_key(r) && 0 <= j < taken_from(l1, l2, r) && (
                #[trigger] l1[r].orders[j]).id == id;
            let k = taken_from(ladder, l1, r);
            assert(ladder.dom().contains(r));
            assert(k >= 0);
            assert(j < l1[r].orders.len());
            assert(l1[r].orders[j].id == ladder[r].orders[j + k].id);
            assert(j + k < taken_from(ladder, l3, r));
            assert(whole.retired.contains(ladder[r].orders[j + k].id));
        }
    }
}

impl BookState {
    /// An order may as well come in two parts: where nothing rounds, the book is left with the
    /// same orders for the same quantities and with the same index, as much is left of the order,
    /// and every maker trades as much at the same price.
    pub proof fn lemma_split_taker(
        self,
        id: OrderId,
        side: Side,
        price: Price,
        a: Quantity,
        b: Quantity,
        both: Quantity,
    )
        requires
            self.wf(),
            a.valid(),
            b.valid(),
            both.valid(),
            a.units() > 0,
            b.units() > 0,
            both.units() == a.units() + b.units(),
            nothing_rounds(self.side(opposite(side)), id, rank(opposite(side), price), a),
            nothing_rounds(
                self.after_trades(id, side, price, a).side(opposite(side)),
                id,
                rank(opposite(side), price),
                b,
            ),
            nothing_rounds(self.side(opposite(side)), id, rank(opposite(side), price), both),
        ensures
            ({
                let once = self.after_trades(id, side, price, a);
                let twice = once.after_trades(id, side, price, b);
                let whole = self.after_trades(id, side, price, both);
                let (x, y, z) = (
                    self.trades(id, side, price, a),
                    once.trades(id, side, price, b),
                    self.trades(id, side, price, both),
                );
                &&& values(twice.bids) == values(whole.bids)
                &&& values(twice.asks) == values(whole.asks)
                &&& twice.index == whole.index
                &&& x.remaining.units() + y.remaining.units() == z.remaining.units()
                &&& forall|pick: spec_fn(OrderId, Price) -> bool|
                    filled_of(x.fills, pick) + filled_of(y.fills, pick) == #[trigger] filled_of(
                        z.fills,
                        pick,
                    )
            }),
    {
        let facing = opposite(side);
        let limit = rank(facing, price);
        let once = self.after_trades(id, side, price, a);
        let twice = once.after_trades(id, side, price, b);
        let whole = self.after_trades(id, side, price, both);
        lemma_split(facing, self.side(facing), id, limit, a, b, both);
        let x = self.trades(id, side, price, a);
        let y = once.trades(id, side, price, b);
        let z = self.trades(id, side, price, both);
        assert forall|key: OrderId| twice.index.contains_key(key) <==> whole.index.contains_key(
            key,
        ) by {
            assert(x.retired.contains(key) || y.retired.contains(key) <==> z.retired.contains(key));
        }
        assert(twice.index =~= whole.index);
    }
}

} // verus!
