//! One side of a book: its price levels, best price first.
use crate::decimal::{
    lemma_difference_in_range, lemma_units_bound, minus, MAX_COEFFICIENT, UNITS_PER_ONE,
};
use crate::matching::{
    fill_queue, fill_with, lemma_without_concat, lemma_without_nothing, lemma_without_push,
    without,
};
use crate::order::Order;
use crate::types::{Fill, OrderId, Price, Quantity, Side};
use std::collections::BTreeMap;
use std::collections::HashMap;
use vstd::prelude::*;

verus! {

/// The place of a price among those of its side, as the whole number and the rest that make up
/// the price, or its opposite on the side of the buyers: better prices have lower ranks.
pub type Rank = (i128, u128);

/// The orders that rest at one price, as a sequence.
pub struct Level {
    pub price: Price,
    pub orders: Seq<Order>,
}

/// The orders that rest at one price.
pub struct PriceLevel {
    /// The price of the first order that came to rest here.
    pub price: Price,
    /// The orders, first come first.
    pub orders: Vec<Order>,
}

impl View for PriceLevel {
    type V = Level;

    open spec fn view(&self) -> Level {
        Level { price: self.price, orders: self.orders@ }
    }
}

/// The levels of one side, by rank.
pub type Levels = BTreeMap<Rank, PriceLevel>;

/// The levels as a map from ranks to sequences of orders.
pub open spec fn ladder(levels: Levels) -> Map<Rank, Level> {
    levels@.map_values(|level: PriceLevel| level@)
}

/// The value by which prices of a side are ordered: the best is the lowest.
pub open spec fn cost(side: Side, price: Price) -> int {
    match side {
        Side::Buy => -price.units(),
        Side::Sell => price.units(),
    }
}

/// The rank of a price.
pub open spec fn rank(side: Side, price: Price) -> Rank {
    (
        (cost(side, price) / (UNITS_PER_ONE as int)) as i128,
        (cost(side, price) % (UNITS_PER_ONE as int)) as u128,
    )
}

/// Whether rank `a` comes before rank `b`.
pub open spec fn ahead(a: Rank, b: Rank) -> bool {
    a.0 < b.0 || (a.0 == b.0 && a.1 < b.1)
}

/// Whether `first` is the best rank of the ladder.
pub open spec fn is_best(ladder: Map<Rank, Level>, first: Rank) -> bool {
    &&& ladder.contains_key(first)
    &&& forall|other: Rank| #[trigger] ladder.contains_key(other) ==> !ahead(other, first)
}

/// The best rank of a ladder that is not empty.
pub open spec fn best(ladder: Map<Rank, Level>) -> Rank {
    choose|first: Rank| is_best(ladder, first)
}

/// Whether `first` is the best rank of the ladder at which there are orders.
pub open spec fn is_best_with_orders(ladder: Map<Rank, Level>, first: Rank) -> bool {
    &&& ladder.contains_key(first)
    &&& ladder[first].orders.len() > 0
    &&& forall|other: Rank| #[trigger]
        ladder.contains_key(other) && ladder[other].orders.len() > 0 ==> !ahead(other, first)
}

/// The price of the best level that has orders, where there is one.
pub open spec fn best_price(ladder: Map<Rank, Level>) -> Option<Price> {
    if exists|first: Rank| is_best_with_orders(ladder, first) {
        Some(ladder[choose|first: Rank| is_best_with_orders(ladder, first)].price)
    } else {
        None
    }
}

/// A queue as it rests in a book: no order in it has been used up.
pub open spec fn queue_wf(queue: Seq<Order>) -> bool {
    forall|i: int|
        0 <= i < queue.len() ==> (#[trigger] queue[i]).quantity.valid() && queue[i].quantity.units()
            > 0
}

/// A level as it rests in a book: it has orders, each at the price of the level.
pub open spec fn level_wf(level: Level) -> bool {
    &&& level.price.valid()
    &&& level.orders.len() > 0
    &&& queue_wf(level.orders)
    &&& forall|i: int|
        0 <= i < level.orders.len() ==> (#[trigger] level.orders[i]).price.units()
            == level.price.units()
}

/// A side as it rests in a book: each level stands at the rank of its price.
pub open spec fn ladder_wf(side: Side, ladder: Map<Rank, Level>) -> bool {
    &&& ladder.dom().finite()
    &&& forall|r: Rank| #[trigger]
        ladder.contains_key(r) ==> level_wf(ladder[r]) && r == rank(side, ladder[r].price)
}

/// What comes of a trade with one side of a book.
pub struct LadderOutcome {
    /// The trades, in the order in which they were made.
    pub fills: Seq<Fill>,
    /// The orders that were filled whole, in the order in which they were filled.
    pub retired: Seq<OrderId>,
    /// What is left of the incoming order.
    pub remaining: Quantity,
    /// What is left of the side.
    pub ladder: Map<Rank, Level>,
}

/// Trades `quantity` with the levels of a side, best first, as far as the rank `limit`.
pub open spec fn sweep(
    ladder: Map<Rank, Level>,
    taker: OrderId,
    limit: Rank,
    quantity: Quantity,
) -> LadderOutcome
    decreases ladder.dom().len(),
    when ladder.dom().finite()
{
    let first = best(ladder);
    if quantity.units() <= 0 || !is_best(ladder, first) || ahead(limit, first) {
        LadderOutcome { fills: seq![], retired: seq![], remaining: quantity, ladder }
    } else {
        let level = ladder[first];
        let here = fill_queue(level.orders, taker, level.price, quantity);
        if here.queue.len() > 0 {
            LadderOutcome {
                fills: here.fills,
                retired: here.retired,
                remaining: here.remaining,
                ladder: ladder.insert(first, Level { orders: here.queue, ..level }),
            }
        } else {
            let rest = sweep(ladder.remove(first), taker, limit, here.remaining);
            LadderOutcome {
                fills: here.fills + rest.fills,
                retired: here.retired + rest.retired,
                remaining: rest.remaining,
                ladder: rest.ladder,
            }
        }
    }
}

/// The rank of a price.
pub(crate) fn price_rank(side: Side, price: Price) -> (r: Rank)
    ensures
        r == rank(side, price),
{
    let signed = match side {
        Side::Buy => price.negated(),
        Side::Sell => price,
    };
    proof {
        use_type_invariant(&price);
        crate::decimal::lemma_opposite(price);
    }
    let r: Rank = signed.floor_and_rest();
    proof {
        let u = cost(side, price);
        vstd::arithmetic::div_mod::lemma_fundamental_div_mod_converse(
            u,
            UNITS_PER_ONE as int,
            r.0 as int,
            r.1 as int,
        );
    }
    r
}

/// The best rank, where there is one.
pub(crate) fn first_rank(levels: &Levels) -> (r: Option<Rank>)
    ensures
        match r {
            Some(first) => is_best(ladder(*levels), first),
            None => ladder(*levels) == Map::<Rank, Level>::empty(),
        },
{
    broadcast use vstd::laws_cmp::group_laws_cmp;

    let ghost entries = vstd::std_specs::iter::IteratorSpec::remaining(
        &vstd::std_specs::btree::spec_btree_map_iter(levels),
    );
    for entry in it: levels.iter()
        invariant
            it.index() == 0,
            it.seq() == entries,
            entries == vstd::std_specs::iter::IteratorSpec::remaining(
                &vstd::std_specs::btree::spec_btree_map_iter(levels),
            ),
            vstd::std_specs::btree::increasing_seq(
                entries.map_values(|kv: (&Rank, &PriceLevel)| *kv.0),
            ),
    {
        let first: Rank = *entry.0;
        proof {
            let ranks = entries.map_values(|kv: (&Rank, &PriceLevel)| *kv.0);
            assert(ranks[0] == first);
            assert(levels@.contains_key(*entries[0].0));
            assert forall|other: Rank| #[trigger]
                ladder(*levels).contains_key(other) implies !ahead(other, first) by {
                assert(levels@.contains_key(other));
                assert(entries.contains((&other, &levels@[other])));
                let j = choose|j: int|
                    0 <= j < entries.len() && entries[j] == (&other, &levels@[other]);
                assert(ranks[j] == other);
                if j > 0 {
                    assert(vstd::std_specs::cmp::OrdSpec::cmp_spec(&ranks[0], &ranks[j]) is Less);
                }
            }
        }
        return Some(first);
    }
    assert(levels@.dom().len() == 0);
    assert(ladder(*levels) =~= Map::<Rank, Level>::empty());
    None
}

/// The price of the best level that has orders, where there is one. Levels without orders are
/// passed over.
pub(crate) fn first_price(levels: &Levels) -> (r: Option<Price>)
    ensures
        r == best_price(ladder(*levels)),
{
    broadcast use vstd::laws_cmp::group_laws_cmp;

    let ghost entries = vstd::std_specs::iter::IteratorSpec::remaining(
        &vstd::std_specs::btree::spec_btree_map_iter(levels),
    );
    for entry in it: levels.iter()
        invariant
            it.seq() == entries,
            entries == vstd::std_specs::iter::IteratorSpec::remaining(
                &vstd::std_specs::btree::spec_btree_map_iter(levels),
            ),
            vstd::std_specs::btree::increasing_seq(
                entries.map_values(|kv: (&Rank, &PriceLevel)| *kv.0),
            ),
            forall|j: int| 0 <= j < it.index() ==> (#[trigger] entries[j]).1.orders@.len() == 0,
    {
        let level: &PriceLevel = entry.1;
        if level.orders.len() > 0 {
            proof {
                let k = it.index();
                let first = *entries[k].0;
                let ranks = entries.map_values(|kv: (&Rank, &PriceLevel)| *kv.0);
                assert(ranks[k] == first);
                assert(levels@.contains_key(first) && levels@[first] == *level) by {
                    assert(entries.contains(entries[k]));
                }
                assert forall|other: Rank| #[trigger]
                    ladder(*levels).contains_key(other) && ladder(*levels)[other].orders.len()
                        > 0 implies !ahead(other, first) by {
                    assert(levels@.contains_key(other));
                    assert(entries.contains((&other, &levels@[other])));
                    let j = choose|j: int|
                        0 <= j < entries.len() && entries[j] == (&other, &levels@[other]);
                    assert(ranks[j] == other);
                    if j > k {
                        assert(vstd::std_specs::cmp::OrdSpec::cmp_spec(
                            &ranks[k],
                            &ranks[j],
                        ) is Less);
                    }
                }
                assert(is_best_with_orders(ladder(*levels), first));
                lemma_one_best_with_orders(ladder(*levels), first);
            }
            return Some(level.price);
        }
    }
    proof {
        assert forall|first: Rank| !is_best_with_orders(ladder(*levels), first) by {
            if ladder(*levels).contains_key(first) {
                assert(levels@.contains_key(first));
                assert(entries.contains((&first, &levels@[first])));
                let j = choose|j: int|
                    0 <= j < entries.len() && entries[j] == (&first, &levels@[first]);
                assert(entries[j].1.orders@.len() == 0);
            }
        }
    }
    None
}

/// A ladder has one best rank with orders at most.
pub proof fn lemma_one_best_with_orders(ladder: Map<Rank, Level>, first: Rank)
    requires
        is_best_with_orders(ladder, first),
    ensures
        best_price(ladder) == Some(ladder[first].price),
{
    let other = choose|other: Rank| is_best_with_orders(ladder, other);
    assert(!ahead(first, other));
    assert(!ahead(other, first));
}

/// Trades `quantity` with the orders of one level.
pub(crate) fn trade(
    orders: &mut Vec<Order>,
    index: &mut HashMap<OrderId, Price>,
    taker: OrderId,
    price: Price,
    quantity: Quantity,
    fills: &mut Vec<Fill>,
) -> (remaining: Quantity)
    requires
        queue_wf(old(orders)@),
    ensures
        ({
            let out = fill_queue(old(orders)@, taker, price, quantity);
            &&& final(orders)@ == out.queue
            &&& final(index)@ == without(old(index)@, out.retired)
            &&& final(fills)@ == old(fills)@ + out.fills
            &&& remaining == out.remaining
        }),
        queue_wf(final(orders)@),
        final(orders)@.len() > 0 ==> remaining.units() <= 0,
        forall|i: int|
            0 <= i < final(orders)@.len() ==> exists|j: int|
                0 <= j < old(orders)@.len() && (#[trigger] final(orders)@[i]).price == old(
                    orders,
                )@[j].price,
{
    let ghost queue = orders@;
    let ghost out = fill_queue(queue, taker, price, quantity);
    let ghost mut made: Seq<Fill> = seq![];
    let ghost mut retired: Seq<OrderId> = seq![];
    let mut remaining = quantity;
    proof {
        lemma_without_nothing(index@);
        assert(fills@ + made =~= fills@);
    }
    while remaining.is_positive() && orders.len() > 0
        invariant
            queue_wf(orders@),
            forall|i: int|
                0 <= i < orders@.len() ==> exists|j: int|
                    0 <= j < old(orders)@.len() && (#[trigger] orders@[i]).price == old(
                        orders,
                    )@[j].price,
            ({
                let rest = fill_queue(orders@, taker, price, remaining);
                &&& out.fills == made + rest.fills
                &&& out.retired == retired + rest.retired
                &&& out.remaining == rest.remaining
                &&& out.queue == rest.queue
            }),
            index@ == without(old(index)@, retired),
            fills@ == old(fills)@ + made,
        decreases orders.len(), (if remaining.units() > 0 {
            1int
        } else {
            0
        }),
    {
        let ghost before = orders@;
        let ghost rest = fill_queue(before, taker, price, remaining);
        let maker = orders[0];
        let traded = remaining.min(maker.quantity);
        let fill = Fill {
            maker_order_id: maker.id,
            taker_order_id: taker,
            price,
            quantity: traded,
        };
        fills.push(fill);
        proof {
            use_type_invariant(&remaining);
            lemma_difference_in_range(maker.quantity, traded);
            lemma_difference_in_range(remaining, traded);
            assert(fill == fill_with(maker.id, maker.quantity, taker, price, remaining));
        }
        let left = minus(maker.quantity, traded);
        remaining = minus(remaining, traded);
        if left.is_zero() {
            index.remove(&maker.id);
            orders.remove(0);
            proof {
                lemma_without_push(old(index)@, retired, maker.id);
                let after = fill_queue(before.skip(1), taker, price, remaining);
                assert(orders@ =~= before.skip(1));
                assert(made + rest.fills =~= made.push(fill) + after.fills);
                assert(retired + rest.retired =~= retired.push(maker.id) + after.retired);
                made = made.push(fill);
                retired = retired.push(maker.id);
            }
        } else {
            orders[0] = Order { id: maker.id, price: maker.price, quantity: left };
            proof {
                assert(orders@ =~= before.update(0, Order { quantity: left, ..maker }));
                assert(made + rest.fills =~= made.push(fill) + Seq::<Fill>::empty());
                made = made.push(fill);
            }
        }
    }
    proof {
        assert(made + Seq::<Fill>::empty() =~= made);
        assert(retired + Seq::<OrderId>::empty() =~= retired);
    }
    remaining
}

/// A ladder has one best rank at most.
pub proof fn lemma_one_best(ladder: Map<Rank, Level>, first: Rank)
    requires
        is_best(ladder, first),
    ensures
        best(ladder) == first,
{
    let other = best(ladder);
    assert(is_best(ladder, other));
    assert(!ahead(first, other));
    assert(!ahead(other, first));
}

/// A trade leaves no level that was not there, and changes the price of none.
pub proof fn lemma_sweep_shrinks(
    ladder: Map<Rank, Level>,
    taker: OrderId,
    limit: Rank,
    quantity: Quantity,
)
    requires
        ladder.dom().finite(),
    ensures
        ({
            let out = sweep(ladder, taker, limit, quantity);
            forall|r: Rank| #[trigger]
                out.ladder.contains_key(r) ==> ladder.contains_key(r) && out.ladder[r].price
                    == ladder[r].price
        }),
    decreases ladder.dom().len(),
{
    let first = best(ladder);
    if !(quantity.units() <= 0 || !is_best(ladder, first) || ahead(limit, first)) {
        let here = fill_queue(ladder[first].orders, taker, ladder[first].price, quantity);
        if here.queue.len() == 0 {
            lemma_sweep_shrinks(ladder.remove(first), taker, limit, here.remaining);
            let out = sweep(ladder, taker, limit, quantity);
            let rest = sweep(ladder.remove(first), taker, limit, here.remaining);
            assert(out.ladder == rest.ladder);
            assert forall|r: Rank| #[trigger]
                out.ladder.contains_key(r) implies ladder.contains_key(r) && out.ladder[r].price
                == ladder[r].price by {
                assert(rest.ladder.contains_key(r));
                assert(ladder.remove(first).contains_key(r));
            }
        }
    }
}

/// Trades `quantity` with one side of the book, as far as the rank `limit`.
pub(crate) fn trade_with_side(
    levels: &mut Levels,
    index: &mut HashMap<OrderId, Price>,
    taker: OrderId,
    limit: Rank,
    quantity: Quantity,
    Ghost(side): Ghost<Side>,
) -> (r: (Quantity, Vec<Fill>))
    requires
        ladder_wf(side, ladder(*old(levels))),
    ensures
        ({
            let out = sweep(ladder(*old(levels)), taker, limit, quantity);
            &&& ladder(*final(levels)) == out.ladder
            &&& final(index)@ == without(old(index)@, out.retired)
            &&& r.0 == out.remaining
            &&& r.1@ == out.fills
        }),
        ladder_wf(side, ladder(*final(levels))),
        r.0.units() > 0 ==> forall|other: Rank| #[trigger]
            ladder(*final(levels)).contains_key(other) ==> ahead(limit, other),
{
    broadcast use vstd::laws_cmp::group_laws_cmp;

    let ghost out = sweep(ladder(*levels), taker, limit, quantity);
    let ghost mut retired: Seq<OrderId> = seq![];
    let mut remaining = quantity;
    let mut fills: Vec<Fill> = Vec::new();
    proof {
        lemma_without_nothing(index@);
        assert(fills@ + out.fills =~= out.fills);
        assert(retired + out.retired =~= out.retired);
    }
    while remaining.is_positive()
        invariant
            ladder_wf(side, ladder(*levels)),
            ({
                let rest = sweep(ladder(*levels), taker, limit, remaining);
                &&& out.fills == fills@ + rest.fills
                &&& out.retired == retired + rest.retired
                &&& out.remaining == rest.remaining
                &&& out.ladder == rest.ladder
            }),
            index@ == without(old(index)@, retired),
        ensures
            sweep(ladder(*levels), taker, limit, remaining).fills == Seq::<Fill>::empty(),
            sweep(ladder(*levels), taker, limit, remaining).retired == Seq::<OrderId>::empty(),
            sweep(ladder(*levels), taker, limit, remaining).remaining == remaining,
            sweep(ladder(*levels), taker, limit, remaining).ladder == ladder(*levels),
            remaining.units() > 0 ==> forall|other: Rank| #[trigger]
                ladder(*levels).contains_key(other) ==> ahead(limit, other),
        decreases ladder(*levels).dom().len(), (if remaining.units() > 0 {
            1int
        } else {
            0
        }),
    {
        let ghost before = ladder(*levels);
        let ghost rest = sweep(before, taker, limit, remaining);
        let first = match first_rank(levels) {
            Some(first) => first,
            None => {
                break ;
            },
        };
        proof {
            lemma_one_best(before, first);
        }
        if limit.0 < first.0 || (limit.0 == first.0 && limit.1 < first.1) {
            break ;
        }
        let ghost here = fill_queue(before[first].orders, taker, before[first].price, remaining);
        match levels.remove(&first) {
            None => {
                proof {
                    assert(false);
                }
            },
            Some(level) => {
                let price = level.price;
                let mut orders = level.orders;
                assert(ladder(*levels) =~= before.remove(first));
                let ghost made = fills@;
                remaining = trade(&mut orders, index, taker, price, remaining, &mut fills);
                proof {
                    lemma_without_concat(old(index)@, retired, here.retired);
                }
                if orders.len() > 0 {
                    levels.insert(first, PriceLevel { price, orders });
                    proof {
                        let level = Level { orders: here.queue, ..before[first] };
                        assert(level_wf(level));
                        assert(ladder(*levels) =~= before.insert(first, level));
                        assert(made + rest.fills =~= fills@ + Seq::<Fill>::empty());
                        assert(retired + rest.retired =~= (retired + here.retired)
                            + Seq::<OrderId>::empty());
                    }
                } else {
                    proof {
                        let after = sweep(before.remove(first), taker, limit, remaining);
                        assert(made + rest.fills =~= fills@ + after.fills);
                        assert(retired + rest.retired =~= (retired + here.retired) + after.retired);
                    }
                }
                proof {
                    retired = retired + here.retired;
                }
            },
        }
    }
    proof {
        assert(fills@ + Seq::<Fill>::empty() =~= fills@);
        assert(retired + Seq::<OrderId>::empty() =~= retired);
    }
    (remaining, fills)
}

/// The ladder with one more order, last in the queue of its price.
pub open spec fn rested(side: Side, ladder: Map<Rank, Level>, order: Order) -> Map<Rank, Level> {
    let r = rank(side, order.price);
    if ladder.contains_key(r) {
        ladder.insert(r, Level { orders: ladder[r].orders.push(order), ..ladder[r] })
    } else {
        ladder.insert(r, Level { price: order.price, orders: seq![order] })
    }
}

/// Whether `i` is the first place in the queue of an order with this id.
pub open spec fn is_first_of(queue: Seq<Order>, id: OrderId, i: int) -> bool {
    &&& 0 <= i < queue.len()
    &&& queue[i].id == id
    &&& forall|j: int| 0 <= j < i ==> (#[trigger] queue[j]).id != id
}

/// Whether an order with this id rests at rank `r`.
pub open spec fn rests_at(ladder: Map<Rank, Level>, r: Rank, id: OrderId) -> bool {
    ladder.contains_key(r) && exists|i: int| is_first_of(ladder[r].orders, id, i)
}

/// The ladder without the first order with this id that rests at rank `r`; a level that has no
/// order left goes with it.
pub open spec fn removed(ladder: Map<Rank, Level>, r: Rank, id: OrderId) -> Map<Rank, Level> {
    let left = ladder[r].orders.remove(choose|i: int| is_first_of(ladder[r].orders, id, i));
    if left.len() == 0 {
        ladder.remove(r)
    } else {
        ladder.insert(r, Level { orders: left, ..ladder[r] })
    }
}

/// Whether price `p` is better than price `q` on this side.
pub open spec fn better(side: Side, p: Price, q: Price) -> bool {
    cost(side, p) < cost(side, q)
}

/// Ranks order prices as their values do.
pub proof fn lemma_rank_order(side: Side, p: Price, q: Price)
    requires
        p.valid(),
        q.valid(),
    ensures
        ahead(rank(side, p), rank(side, q)) <==> better(side, p, q),
        rank(side, p) == rank(side, q) <==> p.units() == q.units(),
{
    lemma_units_bound(p);
    lemma_units_bound(q);
    let unit = UNITS_PER_ONE as int;
    let (a, b) = (cost(side, p), cost(side, q));
    lemma_floor_bound(a);
    lemma_floor_bound(b);
    vstd::arithmetic::div_mod::lemma_fundamental_div_mod(a, unit);
    vstd::arithmetic::div_mod::lemma_fundamental_div_mod(b, unit);
    assert(a / unit < b / unit ==> a < b) by (nonlinear_arith)
        requires
            unit > 0,
            a == unit * (a / unit) + a % unit,
            b == unit * (b / unit) + b % unit,
            0 <= a % unit < unit,
            0 <= b % unit < unit,
    ;
    assert(b / unit < a / unit ==> b < a) by (nonlinear_arith)
        requires
            unit > 0,
            a == unit * (a / unit) + a % unit,
            b == unit * (b / unit) + b % unit,
            0 <= a % unit < unit,
            0 <= b % unit < unit,
    ;
}

/// The whole part of a value that a decimal can have fits in 128 bits.
proof fn lemma_floor_bound(u: int)
    requires
        -(MAX_COEFFICIENT * UNITS_PER_ONE) <= u <= MAX_COEFFICIENT * UNITS_PER_ONE,
    ensures
        i128::MIN <= u / (UNITS_PER_ONE as int) <= i128::MAX,
        0 <= u % (UNITS_PER_ONE as int) < UNITS_PER_ONE,
{
    let unit = UNITS_PER_ONE as int;
    vstd::arithmetic::div_mod::lemma_fundamental_div_mod(u, unit);
    let w = u / unit;
    assert(-MAX_COEFFICIENT - 1 <= w <= MAX_COEFFICIENT) by (nonlinear_arith)
        requires
            unit == UNITS_PER_ONE,
            u == unit * w + u % unit,
            0 <= u % unit < unit,
            -(MAX_COEFFICIENT * UNITS_PER_ONE) <= u <= MAX_COEFFICIENT * UNITS_PER_ONE,
    ;
}

/// Puts an order at the end of the queue of its price.
pub(crate) fn rest(levels: &mut Levels, side: Side, order: Order)
    requires
        ladder_wf(side, ladder(*old(levels))),
        order.quantity.units() > 0,
    ensures
        ladder(*final(levels)) == rested(side, ladder(*old(levels)), order),
        ladder_wf(side, ladder(*final(levels))),
{
    broadcast use vstd::laws_cmp::group_laws_cmp;

    let r = price_rank(side, order.price);
    let ghost before = ladder(*levels);
    proof {
        use_type_invariant(&order.price);
        use_type_invariant(&order.quantity);
    }
    match levels.remove(&r) {
        Some(level) => {
            let price = level.price;
            let mut orders = level.orders;
            orders.push(order);
            levels.insert(r, PriceLevel { price, orders });
            proof {
                assert(before.contains_key(r));
                lemma_rank_order(side, price, order.price);
                let now = Level { orders: before[r].orders.push(order), ..before[r] };
                assert(level_wf(now));
                assert(ladder(*levels) =~= before.insert(r, now));
            }
        },
        None => {
            let mut orders: Vec<Order> = Vec::new();
            orders.push(order);
            levels.insert(r, PriceLevel { price: order.price, orders });
            proof {
                let now = Level { price: order.price, orders: seq![order] };
                assert(orders@ =~= seq![order]);
                assert(level_wf(now));
                assert(ladder(*levels) =~= before.insert(r, now));
            }
        },
    }
}

/// The place of the first order with this id, where there is one.
fn position(orders: &Vec<Order>, id: OrderId) -> (r: Option<usize>)
    ensures
        match r {
            Some(i) => is_first_of(orders@, id, i as int),
            None => forall|i: int| !is_first_of(orders@, id, i),
        },
{
    let mut i: usize = 0;
    while i < orders.len()
        invariant
            i <= orders.len(),
            forall|j: int| 0 <= j < i ==> (#[trigger] orders@[j]).id != id,
        decreases orders.len() - i,
    {
        if orders[i].id == id {
            return Some(i);
        }
        i = i + 1;
    }
    None
}

/// Takes the first order with this id out of the queue at rank `r`; says whether there was one.
pub(crate) fn remove(levels: &mut Levels, r: Rank, id: OrderId, Ghost(side): Ghost<Side>) -> (found:
    bool)
    requires
        ladder_wf(side, ladder(*old(levels))),
    ensures
        found == rests_at(ladder(*old(levels)), r, id),
        ladder(*final(levels)) == (if found {
            removed(ladder(*old(levels)), r, id)
        } else {
            ladder(*old(levels))
        }),
        ladder_wf(side, ladder(*final(levels))),
{
    broadcast use vstd::laws_cmp::group_laws_cmp;

    let ghost before = ladder(*levels);
    match levels.remove(&r) {
        None => false,
        Some(level) => {
            let price = level.price;
            let mut orders = level.orders;
            assert(before.contains_key(r));
            assert(ladder(*levels) =~= before.remove(r));
            match position(&orders, id) {
                None => {
                    levels.insert(r, PriceLevel { price, orders });
                    assert(ladder(*levels) =~= before);
                    false
                },
                Some(i) => {
                    orders.remove(i);
                    proof {
                        let k = choose|k: int| is_first_of(before[r].orders, id, k);
                        assert(k == i);
                        assert(orders@ =~= before[r].orders.remove(k));
                    }
                    if orders.len() > 0 {
                        levels.insert(r, PriceLevel { price, orders });
                        proof {
                            let now = Level { orders: orders@, ..before[r] };
                            assert(level_wf(now));
                            assert(ladder(*levels) =~= before.insert(r, now));
                        }
                    }
                    true
                },
            }
        },
    }
}

} // verus!
