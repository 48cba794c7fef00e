//! What each call does to a book, order by order.
use crate::book_laws::{lemma_best_with_orders_exists, lemma_first_exists, lemma_sweep_orderly};
use crate::decimal::{
    difference, lemma_of_signed, lemma_one_is_pow10, lemma_units_bound, MAX_COEFFICIENT,
};
use crate::ladder::{
    ahead, best, best_price, is_best, is_best_with_orders, is_first_of, ladder_wf,
    lemma_one_best,
    lemma_rank_order, lemma_sweep_shrinks, level_wf, rank, removed, rests_at, sweep, Level, Rank,
};
use crate::matching::{
    exact_steps, fill_queue, filled, lemma_conservation, lemma_first_come_first_served,
    lemma_queue_used_up, less_fills, without,
};
use crate::order::Order;
use crate::orderbook::{opposite, BookState};
use crate::serving::{
    at_price, lemma_loses_others, lemma_loses_used_up, lemma_queue_served, lemma_served_concat,
    loses_used_up, served, took_all, used_up,
};
use crate::types::{Fill, OrderId, Price, Quantity, Side};
use vstd::prelude::*;

verus! {

impl BookState {
    /// What rests after a limit order is what its trades left of it. On its own side the book gains
    /// one order at most: last in the queue of its price, for the quantity that came in less the
    /// quantity of each trade. It gains that order exactly where something is left. Every other
    /// order of that side stays as it was.
    pub proof fn lemma_what_is_left_rests(
        self,
        id: OrderId,
        side: Side,
        price: Price,
        qty: Quantity,
    )
        requires
            self.wf(),
            price.valid(),
        ensures
            ({
                let fills = self.trades(id, side, price, qty).fills;
                let (before, after) = (
                    self.side(side),
                    self.after_limit_order(id, side, price, qty).side(side),
                );
                let left = less_fills(qty, fills);
                let r = rank(side, price);
                let place = if before.contains_key(r) {
                    before[r].orders.len() as int
                } else {
                    0
                };
                &&& left.units() <= 0 ==> after == before
                &&& forall|other: Rank|
                    other != r ==> (#[trigger] after.contains_key(other) <==> before.contains_key(
                        other,
                    ))
                &&& forall|other: Rank|
                    other != r && #[trigger] after.contains_key(other) ==> after[other]
                        == before[other]
                &&& left.units() > 0 ==> {
                    &&& after.contains_key(r)
                    &&& after[r].price.units() == price.units()
                    &&& after[r].price == if before.contains_key(r) {
                        before[r].price
                    } else {
                        price
                    }
                    &&& after[r].orders.len() == place + 1
                    &&& forall|i: int|
                        0 <= i < place ==> #[trigger] after[r].orders[i] == before[r].orders[i]
                    &&& after[r].orders[place].id == id
                    &&& after[r].orders[place].price == price
                    &&& after[r].orders[place].quantity == left
                }
                &&& left.units() > 0 && qty.valid() && exact_steps(qty, fills) ==> filled(fills)
                    + after[r].orders[place].quantity.units() == qty.units()
            }),
    {
        let facing = opposite(side);
        let fills = self.trades(id, side, price, qty).fills;
        let before = self.side(side);
        let r = rank(side, price);
        lemma_sweep_orderly(
            facing,
            self.side(facing),
            id,
            rank(facing, price),
            qty,
            |resting: Quantity| true,
        );
        if before.contains_key(r) {
            assert(level_wf(before[r]));
            lemma_rank_order(side, price, before[r].price);
        }
        if qty.valid() && exact_steps(qty, fills) {
            lemma_conservation(qty, fills);
        }
    }

    /// Cancelling takes out one order and nothing else: those behind it in its queue move up, a
    /// level goes with its last order, and every other order stays where it was.
    pub proof fn lemma_cancel_takes_one(self, id: OrderId, s: Side, r: Rank, i: int)
        requires
            self.wf(),
            self.well_indexed(),
            self.has_order(s, r, i),
            self.order_at(s, r, i).id == id,
        ensures
            self.can_cancel(id),
            ({
                let after = self.after_cancel(id);
                let (queue, now) = (self.side(s)[r].orders, after.side(s));
                &&& after.side(opposite(s)) == self.side(opposite(s))
                &&& forall|other: Rank|
                    other != r ==> (#[trigger] now.contains_key(other) <==> self.side(
                        s,
                    ).contains_key(other))
                &&& forall|other: Rank|
                    other != r && #[trigger] now.contains_key(other) ==> now[other] == self.side(
                        s,
                    )[other]
                &&& now.contains_key(r) <==> queue.len() > 1
                &&& queue.len() > 1 ==> {
                    &&& now[r].price == self.side(s)[r].price
                    &&& now[r].orders.len() == queue.len() - 1
                    &&& forall|j: int|
                        0 <= j < queue.len() - 1 ==> #[trigger] now[r].orders[j] == queue[if j < i {
                            j
                        } else {
                            j + 1
                        }]
                }
                &&& !after.index.contains_key(id)
                &&& forall|x: OrderId|
                    x != id ==> (#[trigger] after.index.contains_key(x) <==> self.index.contains_key(
                        x,
                    ))
                &&& forall|x: OrderId|
                    x != id && #[trigger] after.index.contains_key(x) ==> after.index[x]
                        == self.index[x]
            }),
    {
        self.lemma_can_cancel_resting(id);
        self.lemma_found(id, s, r, i);
        let queue = self.side(s)[r].orders;
        let first = choose|k: int| is_first_of(queue, id, k);
        assert(first == i);
        let after = self.after_cancel(id);
        assert(after.side(s) == removed(self.side(s), r, id));
        assert(after.side(opposite(s)) == self.side(opposite(s)));
    }

    /// Whether an order with this id rests on a side at the price that the index gives.
    pub open spec fn entered_at(self, id: OrderId, side: Side, r: Rank, i: int) -> bool {
        &&& self.has_order(side, r, i)
        &&& self.order_at(side, r, i).id == id
        &&& self.side(side)[r].price.units() == self.index[id].units()
    }

    /// Cancelling finds an order exactly where the index has its id and such an order rests at the
    /// price that the index gives.
    pub proof fn lemma_cancel_finds(self, id: OrderId)
        requires
            self.wf(),
            self.index.contains_key(id) ==> self.index[id].valid(),
        ensures
            self.can_cancel(id) <==> self.index.contains_key(id) && exists|
                side: Side,
                r: Rank,
                i: int,
            | #[trigger]
                self.entered_at(id, side, r, i),
    {
        if self.index.contains_key(id) {
            let price = self.index[id];
            if self.can_cancel(id) {
                let side = if rests_at(self.bids, rank(Side::Buy, price), id) {
                    Side::Buy
                } else {
                    Side::Sell
                };
                let r = rank(side, price);
                let i = choose|i: int| is_first_of(self.side(side)[r].orders, id, i);
                assert(level_wf(self.side(side)[r]));
                lemma_rank_order(side, price, self.side(side)[r].price);
                assert(self.entered_at(id, side, r, i));
            }
            if exists|side: Side, r: Rank, i: int| #[trigger] self.entered_at(id, side, r, i) {
                let (side, r, i) = choose|side: Side, r: Rank, i: int| #[trigger]
                    self.entered_at(id, side, r, i);
                assert(level_wf(self.side(side)[r]));
                lemma_rank_order(side, price, self.side(side)[r].price);
                lemma_first_exists(self.side(side)[r].orders, id, i);
            }
        }
    }

    /// Where an id was given to more than one order, cancelling takes the first of those that rest
    /// at the price that the index gives, a bid before an ask, and nothing else.
    pub proof fn lemma_cancel_takes_first(self, id: OrderId, s: Side, r: Rank, i: int)
        requires
            self.wf(),
            self.index.contains_key(id),
            self.index[id].valid(),
            self.entered_at(id, s, r, i),
            forall|j: int| 0 <= j < i ==> !#[trigger] self.entered_at(id, s, r, j),
            s == Side::Sell ==> forall|r2: Rank, j: int| !#[trigger]
                self.entered_at(id, Side::Buy, r2, j),
        ensures
            ({
                let after = self.after_cancel(id);
                let (before, now) = (self.side(s), after.side(s));
                let queue = before[r].orders;
                &&& after.side(opposite(s)) == self.side(opposite(s))
                &&& forall|other: Rank|
                    other != r ==> (#[trigger] now.contains_key(other) <==> before.contains_key(
                        other,
                    ))
                &&& forall|other: Rank|
                    other != r && #[trigger] now.contains_key(other) ==> now[other] == before[other]
                &&& now.contains_key(r) <==> queue.len() > 1
                &&& queue.len() > 1 ==> now[r].price == before[r].price && now[r].orders
                    == queue.take(i) + queue.skip(i + 1)
                &&& !after.index.contains_key(id)
                &&& forall|x: OrderId|
                    x != id ==> (#[trigger] after.index.contains_key(x) <==> self.index.contains_key(
                        x,
                    ))
                &&& forall|x: OrderId|
                    x != id && #[trigger] after.index.contains_key(x) ==> after.index[x]
                        == self.index[x]
            }),
    {
        let price = self.index[id];
        let queue = self.side(s)[r].orders;
        assert(level_wf(self.side(s)[r]));
        lemma_rank_order(s, price, self.side(s)[r].price);
        assert forall|j: int| 0 <= j < i implies (#[trigger] queue[j]).id != id by {
            assert(!self.entered_at(id, s, r, j));
            assert(self.has_order(s, r, j));
        }
        assert(is_first_of(queue, id, i));
        let first = choose|k: int| is_first_of(queue, id, k);
        assert(first == i) by {
            assert(queue[first].id == id);
            assert(queue[i].id == id);
        }
        if s == Side::Sell && rests_at(self.bids, rank(Side::Buy, price), id) {
            let rb = rank(Side::Buy, price);
            let k = choose|k: int| is_first_of(self.bids[rb].orders, id, k);
            assert(level_wf(self.bids[rb]));
            lemma_rank_order(Side::Buy, price, self.bids[rb].price);
            assert(self.entered_at(id, Side::Buy, rb, k));
        }
        let after = self.after_cancel(id);
        assert(after.side(s) == removed(self.side(s), r, id));
        assert(queue.remove(i) =~= queue.take(i) + queue.skip(i + 1));
    }

    /// Cancelling what does not rest takes no order out of the book, and nothing out of the index
    /// but the entry of that id.
    pub proof fn lemma_failed_cancel_takes_none(self, id: OrderId)
        requires
            !self.can_cancel(id),
        ensures
            ({
                let after = self.after_cancel(id);
                &&& after.bids == self.bids
                &&& after.asks == self.asks
                &&& !after.index.contains_key(id)
                &&& forall|x: OrderId|
                    x != id ==> (#[trigger] after.index.contains_key(x) <==> self.index.contains_key(
                        x,
                    ))
                &&& forall|x: OrderId|
                    x != id && #[trigger] after.index.contains_key(x) ==> after.index[x]
                        == self.index[x]
            }),
    {
    }

    /// The best price of a side is one at which there is an order, and of those at which there are
    /// orders none is better. There is none only where there are no orders.
    pub proof fn lemma_best_price_is_best(self, side: Side)
        requires
            self.wf(),
        ensures
            match best_price(self.side(side)) {
                Some(price) => {
                    &&& exists|r: Rank, i: int| #[trigger]
                        self.has_order(side, r, i) && price == self.side(side)[r].price
                    &&& forall|r: Rank, i: int| #[trigger]
                        self.has_order(side, r, i) ==> match side {
                            Side::Buy => self.order_at(side, r, i).price.units() <= price.units(),
                            Side::Sell => self.order_at(side, r, i).price.units() >= price.units(),
                        }
                },
                None => forall|r: Rank, i: int| !#[trigger] self.has_order(side, r, i),
            },
    {
        let ladder = self.side(side);
        if let Some(price) = best_price(ladder) {
            let first = choose|first: Rank| is_best_with_orders(ladder, first);
            assert(self.has_order(side, first, 0));
        }
        assert forall|r: Rank, i: int| #[trigger] self.has_order(side, r, i) implies (
        best_price(ladder) matches Some(price) && match side {
            Side::Buy => self.order_at(side, r, i).price.units() <= price.units(),
            Side::Sell => self.order_at(side, r, i).price.units() >= price.units(),
        }) by {
            assert(level_wf(ladder[r]));
            assert forall|other: Rank| #[trigger] ladder.contains_key(
                other,
            ) implies ladder[other].price.valid() && other == rank(side, ladder[other].price) by {
                assert(level_wf(ladder[other]));
            }
            self.lemma_best_prices(side, r);
        }
    }
}

/// Whether there is an order at a place. A place is a rank and a place in the queue there.
pub open spec fn order_in(ladder: Map<Rank, Level>, place: (Rank, int)) -> bool {
    ladder.contains_key(place.0) && 0 <= place.1 < ladder[place.0].orders.len()
}

/// Whether an order at place `a` is traded with before one at place `b`. The better price comes
/// first, and at one price the order that came first.
pub open spec fn goes_first(
    side: Side,
    ladder: Map<Rank, Level>,
    a: (Rank, int),
    b: (Rank, int),
) -> bool {
    ||| a.0 == b.0 && a.1 < b.1
    ||| match side {
        Side::Buy => ladder[a.0].price.units() > ladder[b.0].price.units(),
        Side::Sell => ladder[a.0].price.units() < ladder[b.0].price.units(),
    }
}

/// Whether these are the places of all the orders of a side whose prices are within reach, in the
/// order in which they are traded with.
pub open spec fn in_line(
    side: Side,
    ladder: Map<Rank, Level>,
    reach: spec_fn(Price) -> bool,
    line: Seq<(Rank, int)>,
) -> bool {
    &&& forall|k: int|
        0 <= k < line.len() ==> order_in(ladder, #[trigger] line[k]) && reach(
            ladder[line[k].0].price,
        )
    &&& forall|place: (Rank, int)| #[trigger]
        order_in(ladder, place) && reach(ladder[place.0].price) ==> line.contains(place)
    &&& forall|j: int, k: int|
        0 <= j < k < line.len() ==> goes_first(
            side,
            ladder,
            #[trigger] line[j],
            #[trigger] line[k],
        )
}

/// The orders at these places, each at the price of its level.
pub open spec fn orders_at(ladder: Map<Rank, Level>, line: Seq<(Rank, int)>) -> Seq<Order> {
    Seq::new(
        line.len(),
        |k: int|
            Order {
                price: ladder[line[k].0].price,
                ..ladder[line[k].0].orders[line[k].1]
            },
    )
}

/// Whether the line `rest` is what trades leave of a line. The orders that were used up are gone
/// from its front. Where the last trade took a part of its order, that order is first, with what is
/// left of it. Those behind are as they were.
pub open spec fn moved_up(
    ladder: Map<Rank, Level>,
    line: Seq<(Rank, int)>,
    fills: Seq<Fill>,
    after: Map<Rank, Level>,
    rest: Seq<(Rank, int)>,
) -> bool {
    let part = fills.len() > 0 && !took_all(fills.last(), orders_at(ladder, line)[fills.len() - 1]);
    let gone = if part {
        fills.len() - 1
    } else {
        fills.len() as int
    };
    &&& rest.len() == line.len() - gone
    &&& forall|k: int|
        0 <= k < rest.len() ==> {
            let (was, now) = (line[k + gone], #[trigger] rest[k]);
            let (before, order) = (ladder[was.0].orders[was.1], after[now.0].orders[now.1]);
            &&& now.0 == was.0
            &&& order.id == before.id
            &&& order.price == before.price
            &&& order.quantity == if part && k == 0 {
                difference(before.quantity, fills.last().quantity)
            } else {
                before.quantity
            }
        }
}

/// The places of one queue.
spec fn queue_line(r: Rank, n: nat) -> Seq<(Rank, int)> {
    Seq::new(n, |i: int| (r, i))
}

/// The places of the orders of a side, as far as the rank `limit`.
spec fn ladder_line(ladder: Map<Rank, Level>, limit: Rank) -> Seq<(Rank, int)>
    decreases ladder.dom().len(),
    when ladder.dom().finite()
{
    let first = best(ladder);
    if !is_best(ladder, first) || ahead(limit, first) {
        seq![]
    } else {
        queue_line(first, ladder[first].orders.len()) + ladder_line(ladder.remove(first), limit)
    }
}

/// What is in that line, and in which order.
proof fn lemma_ladder_line(side: Side, ladder: Map<Rank, Level>, limit: Rank)
    requires
        ladder.dom().finite(),
        forall|r: Rank| #[trigger] ladder.contains_key(r) ==> ladder[r].orders.len() > 0,
    ensures
        ({
            let line = ladder_line(ladder, limit);
            &&& forall|k: int|
                0 <= k < line.len() ==> order_in(ladder, #[trigger] line[k]) && !ahead(
                    limit,
                    line[k].0,
                )
            &&& forall|place: (Rank, int)| #[trigger]
                order_in(ladder, place) && !ahead(limit, place.0) ==> line.contains(place)
            &&& forall|j: int, k: int|
                0 <= j < k < line.len() ==> ((#[trigger] line[j]).0 == (#[trigger] line[k]).0
                    && line[j].1 < line[k].1) || ahead(line[j].0, line[k].0)
        }),
    decreases ladder.dom().len(),
{
    let first = best(ladder);
    let line = ladder_line(ladder, limit);
    if !is_best(ladder, first) || ahead(limit, first) {
        assert forall|place: (Rank, int)| #[trigger]
            order_in(ladder, place) && !ahead(limit, place.0) implies line.contains(place) by {
            lemma_best_with_orders_exists(ladder, place.0);
            let b = choose|b: Rank| is_best_with_orders(ladder, b);
            assert forall|x: Rank| #[trigger] ladder.contains_key(x) implies !ahead(x, b) by {
                assert(ladder[x].orders.len() > 0);
            }
            lemma_one_best(ladder, b);
            assert(!ahead(place.0, first));
        }
    } else {
        let others = ladder.remove(first);
        let front = queue_line(first, ladder[first].orders.len());
        let back = ladder_line(others, limit);
        let n = front.len() as int;
        lemma_ladder_line(side, others, limit);
        assert forall|k: int| 0 <= k < n implies #[trigger] line[k] == (first, k) by {}
        assert forall|k: int| n <= k < line.len() implies #[trigger] line[k] == back[k - n]
            && ladder.contains_key(back[k - n].0) && ahead(first, back[k - n].0) by {
            assert(order_in(others, back[k - n]));
            assert(!ahead(back[k - n].0, first));
        }
        assert forall|j: int, k: int| 0 <= j < k < line.len() implies ((#[trigger] line[j]).0 == (
        #[trigger] line[k]).0 && line[j].1 < line[k].1) || ahead(line[j].0, line[k].0) by {
            if j >= n {
                assert(line[j] == back[j - n] && line[k] == back[k - n]);
            }
        }
        assert forall|k: int| 0 <= k < line.len() implies order_in(ladder, #[trigger] line[k])
            && !ahead(limit, line[k].0) by {
            if k >= n {
                assert(order_in(others, back[k - n]));
            }
        }
        assert forall|place: (Rank, int)| #[trigger]
            order_in(ladder, place) && !ahead(limit, place.0) implies line.contains(place) by {
            if place.0 == first {
                assert(line[place.1] == place);
            } else {
                assert(order_in(others, place));
                let k = choose|k: int| 0 <= k < back.len() && back[k] == place;
                assert(line[k + n] == place);
            }
        }
    }
}

/// The orders of the first queue, and of those behind it.
proof fn lemma_orders_behind(ladder: Map<Rank, Level>, limit: Rank, first: Rank)
    requires
        ladder.dom().finite(),
        forall|r: Rank| #[trigger] ladder.contains_key(r) ==> ladder[r].orders.len() > 0,
        is_best(ladder, first),
        !ahead(limit, first),
    ensures
        ({
            let others = ladder.remove(first);
            let front = queue_line(first, ladder[first].orders.len());
            let back = ladder_line(others, limit);
            &&& ladder_line(ladder, limit) == front + back
            &&& orders_at(ladder, front) == at_price(ladder[first].orders, ladder[first].price)
            &&& orders_at(ladder, back) == orders_at(others, back)
            &&& orders_at(ladder, front + back) == orders_at(ladder, front) + orders_at(
                ladder,
                back,
            )
            &&& forall|k: int|
                0 <= k < back.len() ==> (#[trigger] back[k]).0 != first && order_in(others, back[k])
        }),
{
    lemma_one_best(ladder, first);
    let others = ladder.remove(first);
    let front = queue_line(first, ladder[first].orders.len());
    let back = ladder_line(others, limit);
    lemma_ladder_line(Side::Buy, others, limit);
    assert forall|k: int| 0 <= k < back.len() implies (#[trigger] back[k]).0 != first && order_in(
        others,
        back[k],
    ) by {}
    assert(orders_at(ladder, front) =~= at_price(ladder[first].orders, ladder[first].price));
    assert(orders_at(ladder, back) =~= orders_at(others, back));
    assert(orders_at(ladder, front + back) =~= orders_at(ladder, front) + orders_at(ladder, back));
}

/// The trades with a side serve its line.
proof fn lemma_ladder_served(
    ladder: Map<Rank, Level>,
    taker: OrderId,
    limit: Rank,
    quantity: Quantity,
)
    requires
        ladder.dom().finite(),
        forall|r: Rank| #[trigger] ladder.contains_key(r) ==> ladder[r].orders.len() > 0,
    ensures
        ({
            let out = sweep(ladder, taker, limit, quantity);
            let orders = orders_at(ladder, ladder_line(ladder, limit));
            &&& served(orders, taker, quantity, out.fills)
            &&& used_up(orders, out.fills, out.retired)
            &&& out.remaining == less_fills(quantity, out.fills)
        }),
    decreases ladder.dom().len(),
{
    let first = best(ladder);
    if !(quantity.units() <= 0 || !is_best(ladder, first) || ahead(limit, first)) {
        let level = ladder[first];
        let others = ladder.remove(first);
        let here = fill_queue(level.orders, taker, level.price, quantity);
        let front = orders_at(ladder, queue_line(first, level.orders.len()));
        let back = orders_at(others, ladder_line(others, limit));
        lemma_orders_behind(ladder, limit, first);
        lemma_queue_served(level.orders, taker, level.price, quantity);
        if here.queue.len() > 0 {
            lemma_queue_used_up(level.orders, taker, level.price, quantity);
            let none = Seq::<Fill>::empty();
            let nobody = Seq::<OrderId>::empty();
            assert(served(back, taker, here.remaining, none));
            assert(used_up(back, none, nobody));
            lemma_served_concat(
                front,
                back,
                taker,
                quantity,
                here.fills,
                none,
                here.retired,
                nobody,
            );
            assert(here.fills + none =~= here.fills);
            assert(here.retired + nobody =~= here.retired);
        } else {
            let rest = sweep(others, taker, limit, here.remaining);
            lemma_ladder_served(others, taker, limit, here.remaining);
            lemma_served_concat(
                front,
                back,
                taker,
                quantity,
                here.fills,
                rest.fills,
                here.retired,
                rest.retired,
            );
            crate::matching::lemma_less_fills_concat(quantity, here.fills, rest.fills);
        }
    }
}

/// Whether `rest` is what is left of a line of which the first `gone` orders were used up, and the
/// next one in part where there is a trade more than that.
spec fn moved(
    ladder: Map<Rank, Level>,
    line: Seq<(Rank, int)>,
    fills: Seq<Fill>,
    gone: int,
    after: Map<Rank, Level>,
    rest: Seq<(Rank, int)>,
) -> bool {
    &&& rest.len() == line.len() - gone
    &&& forall|k: int|
        0 <= k < rest.len() ==> {
            let (was, now) = (line[k + gone], #[trigger] rest[k]);
            let (before, order) = (ladder[was.0].orders[was.1], after[now.0].orders[now.1]);
            &&& now.0 == was.0
            &&& order.id == before.id
            &&& order.price == before.price
            &&& order.quantity == if gone < fills.len() && k == 0 {
                difference(before.quantity, fills.last().quantity)
            } else {
                before.quantity
            }
        }
}

/// The trades with a side move up the orders of its line.
proof fn lemma_ladder_moves(
    ladder: Map<Rank, Level>,
    taker: OrderId,
    limit: Rank,
    quantity: Quantity,
)
    requires
        ladder.dom().finite(),
        forall|r: Rank| #[trigger] ladder.contains_key(r) ==> ladder[r].orders.len() > 0,
    ensures
        ({
            let out = sweep(ladder, taker, limit, quantity);
            &&& out.ladder.dom().finite()
            &&& forall|r: Rank| #[trigger]
                out.ladder.contains_key(r) ==> out.ladder[r].orders.len() > 0
            &&& moved(
                ladder,
                ladder_line(ladder, limit),
                out.fills,
                out.retired.len() as int,
                out.ladder,
                ladder_line(out.ladder, limit),
            )
            &&& forall|r: Rank|
                ahead(limit, r) ==> (#[trigger] out.ladder.contains_key(r) <==> ladder.contains_key(
                    r,
                ))
            &&& forall|r: Rank|
                ahead(limit, r) && #[trigger] out.ladder.contains_key(r) ==> out.ladder[r]
                    == ladder[r]
        }),
    decreases ladder.dom().len(),
{
    let first = best(ladder);
    let out = sweep(ladder, taker, limit, quantity);
    if !(quantity.units() <= 0 || !is_best(ladder, first) || ahead(limit, first)) {
        let level = ladder[first];
        let others = ladder.remove(first);
        let here = fill_queue(level.orders, taker, level.price, quantity);
        lemma_orders_behind(ladder, limit, first);
        lemma_first_come_first_served(level.orders, taker, level.price, quantity);
        let (line, back) = (ladder_line(ladder, limit), ladder_line(others, limit));
        let n = level.orders.len() as int;
        let m = here.retired.len() as int;
        if here.queue.len() > 0 {
            let after = out.ladder;
            assert(is_best(after, first));
            assert(after.remove(first) =~= others);
            lemma_orders_behind(after, limit, first);
            let rest = ladder_line(after, limit);
            assert(here.queue.len() == n - m);
            assert forall|k: int| 0 <= k < rest.len() implies {
                let (was, now) = (line[k + m], #[trigger] rest[k]);
                let (before, order) = (ladder[was.0].orders[was.1], after[now.0].orders[now.1]);
                &&& now.0 == was.0
                &&& order.id == before.id
                &&& order.price == before.price
                &&& order.quantity == if m < out.fills.len() && k == 0 {
                    difference(before.quantity, out.fills.last().quantity)
                } else {
                    before.quantity
                }
            } by {
                if k < n - m {
                    assert(rest[k] == (first, k));
                    assert(line[k + m] == (first, k + m));
                    assert(level.orders.skip(m)[k] == level.orders[k + m]);
                } else {
                    assert(rest[k] == back[k - (n - m)]);
                    assert(line[k + m] == back[k + m - n]);
                    assert(order_in(others, back[k - (n - m)]));
                }
            }
        } else {
            let rest_out = sweep(others, taker, limit, here.remaining);
            lemma_ladder_moves(others, taker, limit, here.remaining);
            let rest = ladder_line(out.ladder, limit);
            let gone = rest_out.retired.len() as int;
            assert(out.ladder == rest_out.ladder);
            assert(m == n && here.fills.len() == n);
            assert(out.retired.len() == m + gone);
            assert forall|k: int| 0 <= k < rest.len() implies {
                let (was, now) = (line[k + m + gone], #[trigger] rest[k]);
                let (before, order) = (
                    ladder[was.0].orders[was.1],
                    out.ladder[now.0].orders[now.1],
                );
                &&& now.0 == was.0
                &&& order.id == before.id
                &&& order.price == before.price
                &&& order.quantity == if m + gone < out.fills.len() && k == 0 {
                    difference(before.quantity, out.fills.last().quantity)
                } else {
                    before.quantity
                }
            } by {
                assert(line[k + m + gone] == back[k + gone]);
                assert(order_in(others, back[k + gone]));
                if gone < rest_out.fills.len() {
                    assert(out.fills.last() == rest_out.fills.last());
                }
            }
        }
    }
}

/// The prices that an order with a limit trades at.
pub open spec fn up_to(side: Side, limit: Price) -> spec_fn(Price) -> bool {
    |price: Price|
        match side {
            Side::Buy => price.units() <= limit.units(),
            Side::Sell => price.units() >= limit.units(),
        }
}

/// The prices that a market order trades at: a purchase at all of them, a sale at none below zero.
pub open spec fn at_market(side: Side) -> spec_fn(Price) -> bool {
    |price: Price|
        match side {
            Side::Buy => true,
            Side::Sell => price.units() >= 0,
        }
}

/// Whether a trade leaves the levels of a side within reach with orders and at their prices, and
/// the others as they were.
pub open spec fn levels_kept(
    ladder: Map<Rank, Level>,
    reach: spec_fn(Price) -> bool,
    after: Map<Rank, Level>,
) -> bool {
    &&& forall|r: Rank| #[trigger]
        after.contains_key(r) ==> ladder.contains_key(r) && after[r].price == ladder[r].price
            && after[r].orders.len() > 0
    &&& forall|r: Rank| #[trigger]
        ladder.contains_key(r) && !reach(ladder[r].price) ==> after.contains_key(r) && after[r]
            == ladder[r]
}

impl BookState {
    /// The trades of an order serve the orders of the other side as they stand in line, as far as
    /// its price reaches, and move up those behind. The index loses the orders that are used up.
    /// Nothing else changes. Returns the line before and after.
    pub proof fn lemma_trades_serve(self, id: OrderId, side: Side, price: Price, qty: Quantity) -> (
        r: (Seq<(Rank, int)>, Seq<(Rank, int)>))
        requires
            self.wf(),
            price.valid(),
        ensures
            ({
                let (line, rest) = r;
                let facing = opposite(side);
                let ladder = self.side(facing);
                let fills = self.trades(id, side, price, qty).fills;
                let after = self.after_trades(id, side, price, qty);
                let orders = orders_at(ladder, line);
                &&& in_line(facing, ladder, up_to(side, price), line)
                &&& in_line(facing, after.side(facing), up_to(side, price), rest)
                &&& served(orders, id, qty, fills)
                &&& moved_up(ladder, line, fills, after.side(facing), rest)
                &&& levels_kept(ladder, up_to(side, price), after.side(facing))
                &&& loses_used_up(self.index, orders, fills, after.index)
                &&& after.side(side) == self.side(side)
                &&& self.trades(id, side, price, qty).remaining == less_fills(qty, fills)
            }),
    {
        let facing = opposite(side);
        assert(opposite(facing) == side);
        let ladder = self.side(facing);
        let limit = rank(facing, price);
        let out = self.trades(id, side, price, qty);
        let after = self.after_trades(id, side, price, qty);
        assert(after.side(facing) == out.ladder);
        assert(after.index == without(self.index, out.retired));
        let (line, rest) = (ladder_line(ladder, limit), ladder_line(out.ladder, limit));
        lemma_side_trades(facing, ladder, id, price, qty);
        lemma_loses_used_up(self.index, orders_at(ladder, line), out.fills, out.retired);
        (line, rest)
    }

    /// What is left of a limit order comes last in the queue of its price.
    proof fn lemma_gains(self, id: OrderId, side: Side, price: Price, qty: Quantity)
        requires
            self.wf(),
            price.valid(),
        ensures
            ({
                let left = less_fills(qty, self.trades(id, side, price, qty).fills);
                let after = self.after_limit_order(id, side, price, qty);
                &&& left.units() > 0 ==> gains(
                    self.side(side),
                    rank(side, price),
                    Order { id, price, quantity: left },
                    after.side(side),
                )
                &&& left.units() <= 0 ==> after.side(side) == self.side(side)
            }),
    {
        self.lemma_what_is_left_rests(id, side, price, qty);
        let left = less_fills(qty, self.trades(id, side, price, qty).fills);
        let (before, after) = (
            self.side(side),
            self.after_limit_order(id, side, price, qty).side(side),
        );
        let r = rank(side, price);
        if left.units() > 0 {
            assert(after[r].orders =~= (if before.contains_key(r) {
                before[r].orders
            } else {
                seq![]
            }).push(Order { id, price, quantity: left }));
        }
    }

    /// All that a limit order does. Its trades serve the orders of the other side as they stand in
    /// line, as far as its price, and move up those behind. What they leave of it comes last in the
    /// queue of its price, and its price is entered in the index. Returns the line before and after.
    pub proof fn lemma_limit_order_effect(
        self,
        id: OrderId,
        side: Side,
        price: Price,
        qty: Quantity,
    ) -> (r: (Seq<(Rank, int)>, Seq<(Rank, int)>))
        requires
            self.wf(),
            price.valid(),
        ensures
            ({
                let (line, rest) = r;
                let facing = opposite(side);
                let ladder = self.side(facing);
                let fills = self.trades(id, side, price, qty).fills;
                let after = self.after_limit_order(id, side, price, qty);
                let orders = orders_at(ladder, line);
                let left = less_fills(qty, fills);
                &&& in_line(facing, ladder, up_to(side, price), line)
                &&& in_line(facing, after.side(facing), up_to(side, price), rest)
                &&& served(orders, id, qty, fills)
                &&& moved_up(ladder, line, fills, after.side(facing), rest)
                &&& levels_kept(ladder, up_to(side, price), after.side(facing))
                &&& left.units() > 0 ==> {
                    &&& gains(
                        self.side(side),
                        rank(side, price),
                        Order { id, price, quantity: left },
                        after.side(side),
                    )
                    &&& after.index.contains_key(id)
                    &&& after.index[id] == price
                    &&& loses_used_up(
                        self.index.remove(id),
                        orders,
                        fills,
                        after.index.remove(id),
                    )
                }
                &&& left.units() <= 0 ==> {
                    &&& after.side(side) == self.side(side)
                    &&& loses_used_up(self.index, orders, fills, after.index)
                }
            }),
    {
        let (line, rest) = self.lemma_trades_serve(id, side, price, qty);
        self.lemma_gains(id, side, price, qty);
        let traded = self.after_trades(id, side, price, qty);
        let after = self.after_limit_order(id, side, price, qty);
        let fills = self.trades(id, side, price, qty).fills;
        let orders = orders_at(self.side(opposite(side)), line);
        assert(after.side(opposite(side)) == traded.side(opposite(side)));
        if less_fills(qty, fills).units() > 0 {
            assert(after.index.remove(id) =~= traded.index.remove(id));
            lemma_loses_others(self.index, orders, fills, traded.index, id);
        }
        (line, rest)
    }

    /// All that a market order does. Its trades serve the orders of the other side as they stand in
    /// line, though a sale takes no bid below zero, and move up those behind. What they leave of it
    /// is dropped. Returns the line before and after.
    pub proof fn lemma_market_order_effect(self, id: OrderId, side: Side, qty: Quantity) -> (r: (
        Seq<(Rank, int)>,
        Seq<(Rank, int)>,
    ))
        requires
            self.wf(),
        ensures
            ({
                let (line, rest) = r;
                let facing = opposite(side);
                let ladder = self.side(facing);
                let limit = BookState::market_limit(side);
                let fills = self.trades(id, side, limit, qty).fills;
                let after = self.after_trades(id, side, limit, qty);
                let orders = orders_at(ladder, line);
                &&& in_line(facing, ladder, at_market(side), line)
                &&& in_line(facing, after.side(facing), at_market(side), rest)
                &&& served(orders, id, qty, fills)
                &&& moved_up(ladder, line, fills, after.side(facing), rest)
                &&& levels_kept(ladder, at_market(side), after.side(facing))
                &&& loses_used_up(self.index, orders, fills, after.index)
                &&& after.side(side) == self.side(side)
            }),
    {
        let limit = BookState::market_limit(side);
        lemma_of_signed(0, 0);
        lemma_of_signed(MAX_COEFFICIENT as int, 0);
        lemma_one_is_pow10();
        let (line, rest) = self.lemma_trades_serve(id, side, limit, qty);
        let facing = opposite(side);
        let ladder = self.side(facing);
        assert forall|price: Price| price.valid() implies #[trigger] at_market(side)(price)
            == up_to(side, limit)(price) by {
            lemma_units_bound(price);
        }
        let after = self.after_trades(id, side, limit, qty).side(facing);
        assert forall|r: Rank| #[trigger] ladder.contains_key(r) implies at_market(side)(
            ladder[r].price,
        ) == up_to(side, limit)(ladder[r].price) by {
            assert(level_wf(ladder[r]));
        }
        assert forall|r: Rank| #[trigger] after.contains_key(r) implies at_market(side)(
            after[r].price,
        ) == up_to(side, limit)(after[r].price) by {
            assert(ladder.contains_key(r));
        }
        (line, rest)
    }
}

/// Whether a side gains an order, last in the queue at rank `r`, and nothing else of it changes.
pub open spec fn gains(
    before: Map<Rank, Level>,
    r: Rank,
    order: Order,
    after: Map<Rank, Level>,
) -> bool {
    &&& after.contains_key(r)
    &&& after[r].price.units() == order.price.units()
    &&& after[r].price == if before.contains_key(r) {
        before[r].price
    } else {
        order.price
    }
    &&& after[r].orders == (if before.contains_key(r) {
        before[r].orders
    } else {
        seq![]
    }).push(order)
    &&& forall|other: Rank|
        other != r ==> (#[trigger] after.contains_key(other) <==> before.contains_key(other))
    &&& forall|other: Rank|
        other != r && #[trigger] after.contains_key(other) ==> after[other] == before[other]
}

/// The trades with a side, as its prices order them.
proof fn lemma_side_trades(
    facing: Side,
    ladder: Map<Rank, Level>,
    taker: OrderId,
    price: Price,
    quantity: Quantity,
)
    requires
        ladder_wf(facing, ladder),
        price.valid(),
    ensures
        ({
            let limit = rank(facing, price);
            let reach = up_to(opposite(facing), price);
            let out = sweep(ladder, taker, limit, quantity);
            let (line, rest) = (ladder_line(ladder, limit), ladder_line(out.ladder, limit));
            &&& in_line(facing, ladder, reach, line)
            &&& in_line(facing, out.ladder, reach, rest)
            &&& served(orders_at(ladder, line), taker, quantity, out.fills)
            &&& used_up(orders_at(ladder, line), out.fills, out.retired)
            &&& out.remaining == less_fills(quantity, out.fills)
            &&& moved_up(ladder, line, out.fills, out.ladder, rest)
            &&& levels_kept(ladder, reach, out.ladder)
        }),
{
    let limit = rank(facing, price);
    let reach = up_to(opposite(facing), price);
    let out = sweep(ladder, taker, limit, quantity);
    let (line, rest) = (ladder_line(ladder, limit), ladder_line(out.ladder, limit));
    assert forall|r: Rank| #[trigger] ladder.contains_key(r) implies ladder[r].orders.len() > 0
        && ladder[r].price.valid() && r == rank(facing, ladder[r].price) by {
        assert(level_wf(ladder[r]));
    }
    lemma_ladder_served(ladder, taker, limit, quantity);
    assert(in_line(facing, ladder, reach, line)) by {
        lemma_line_by_price(facing, ladder, price);
    }
    assert(moved_up(ladder, line, out.fills, out.ladder, rest)) by {
        lemma_ladder_moves(ladder, taker, limit, quantity);
        lemma_moved_up(ladder, line, out.fills, out.retired, out.ladder, rest);
    }
    assert(in_line(facing, out.ladder, reach, rest)) by {
        lemma_ladder_moves(ladder, taker, limit, quantity);
        lemma_sweep_shrinks(ladder, taker, limit, quantity);
        lemma_line_by_price(facing, out.ladder, price);
    }
    assert(levels_kept(ladder, reach, out.ladder)) by {
        lemma_ladder_moves(ladder, taker, limit, quantity);
        lemma_sweep_shrinks(ladder, taker, limit, quantity);
        lemma_levels_kept(facing, ladder, price, out.ladder);
    }
}

/// Where the first orders of a line are used up, the others move up.
proof fn lemma_moved_up(
    ladder: Map<Rank, Level>,
    line: Seq<(Rank, int)>,
    fills: Seq<Fill>,
    retired: Seq<OrderId>,
    after: Map<Rank, Level>,
    rest: Seq<(Rank, int)>,
)
    requires
        used_up(orders_at(ladder, line), fills, retired),
        moved(ladder, line, fills, retired.len() as int, after, rest),
    ensures
        moved_up(ladder, line, fills, after, rest),
{
    if fills.len() > 0 {
        let last = fills.len() - 1;
        assert(took_all(fills[last], orders_at(ladder, line)[last]) <==> last < retired.len());
    }
}

/// A trade leaves the levels within reach at their prices, and the others as they were.
proof fn lemma_levels_kept(
    facing: Side,
    ladder: Map<Rank, Level>,
    price: Price,
    after: Map<Rank, Level>,
)
    requires
        price.valid(),
        forall|r: Rank| #[trigger]
            ladder.contains_key(r) ==> ladder[r].price.valid() && r == rank(
                facing,
                ladder[r].price,
            ),
        forall|r: Rank| #[trigger]
            after.contains_key(r) ==> ladder.contains_key(r) && after[r].price == ladder[r].price
                && after[r].orders.len() > 0,
        forall|r: Rank|
            ahead(rank(facing, price), r) ==> (#[trigger] after.contains_key(r)
                <==> ladder.contains_key(r)),
        forall|r: Rank|
            ahead(rank(facing, price), r) && #[trigger] after.contains_key(r) ==> after[r]
                == ladder[r],
    ensures
        levels_kept(ladder, up_to(opposite(facing), price), after),
{
    assert forall|r: Rank| #[trigger]
        ladder.contains_key(r) && !up_to(opposite(facing), price)(
            ladder[r].price,
        ) implies after.contains_key(r) && after[r] == ladder[r] by {
        lemma_rank_order(facing, price, ladder[r].price);
        assert(after.contains_key(r));
    }
}

/// The line of a side as its prices order it.
proof fn lemma_line_by_price(facing: Side, ladder: Map<Rank, Level>, limit: Price)
    requires
        ladder.dom().finite(),
        limit.valid(),
        forall|r: Rank| #[trigger]
            ladder.contains_key(r) ==> ladder[r].orders.len() > 0 && ladder[r].price.valid() && r
                == rank(facing, ladder[r].price),
    ensures
        in_line(
            facing,
            ladder,
            up_to(opposite(facing), limit),
            ladder_line(ladder, rank(facing, limit)),
        ),
{
    let line = ladder_line(ladder, rank(facing, limit));
    let reach = up_to(opposite(facing), limit);
    lemma_ladder_line(facing, ladder, rank(facing, limit));
    assert forall|r: Rank| #[trigger] ladder.contains_key(r) implies (reach(ladder[r].price)
        <==> !ahead(rank(facing, limit), r)) by {
        lemma_rank_order(facing, limit, ladder[r].price);
    }
    assert forall|k: int| 0 <= k < line.len() implies order_in(ladder, #[trigger] line[k]) && reach(
        ladder[line[k].0].price,
    ) by {
        assert(ladder.contains_key(line[k].0));
    }
    assert forall|place: (Rank, int)| #[trigger]
        order_in(ladder, place) && reach(ladder[place.0].price) implies line.contains(place) by {
        assert(ladder.contains_key(place.0));
    }
    assert forall|j: int, k: int| 0 <= j < k < line.len() implies goes_first(
        facing,
        ladder,
        #[trigger] line[j],
        #[trigger] line[k],
    ) by {
        assert(order_in(ladder, line[j]) && order_in(ladder, line[k]));
        lemma_rank_order(facing, ladder[line[j].0].price, ladder[line[k].0].price);
    }
}

} // verus!
