//! How an incoming order trades with the taken places of a level.
use crate::decimal::difference;
use crate::matching::fill_with;
use crate::ring_level::{any_live, lemma_live_only, live_only, Slot};
use crate::types::{Fill, OrderId, Price, Quantity};
use vstd::prelude::*;

verus! {

/// What comes of a trade with the taken places of a level.
pub struct SlotsOutcome {
    /// The trades, in the order in which they were made.
    pub fills: Seq<Fill>,
    /// The orders that were filled whole, in the order in which they were filled.
    pub retired: Seq<OrderId>,
    /// What is left of the incoming order.
    pub remaining: Quantity,
    /// What is left of the level.
    pub slots: Seq<Slot>,
}

/// The places of a level as they are in a book: an order that rests there has something left to
/// trade.
pub open spec fn slots_wf(slots: Seq<Slot>) -> bool {
    forall|i: int|
        0 <= i < slots.len() && (#[trigger] slots[i]).live ==> slots[i].quantity.valid()
            && slots[i].quantity.units() > 0
}

/// The place of an order of which `traded` was traded: a tombstone, where that is all of it.
pub open spec fn after_fill(maker: Slot, traded: Quantity) -> Slot {
    if traded.units() == maker.quantity.units() {
        Slot { live: false, ..maker }
    } else {
        Slot { quantity: difference(maker.quantity, traded), ..maker }
    }
}

/// Trades `quantity` with the orders at places `from` and up, until the quantity or the places
/// are used up. Tombstones are passed over.
pub open spec fn fill_slots(
    slots: Seq<Slot>,
    from: nat,
    taker: OrderId,
    price: Price,
    quantity: Quantity,
) -> SlotsOutcome
    decreases slots.len() - from,
{
    if from >= slots.len() || quantity.units() <= 0 {
        SlotsOutcome { fills: seq![], retired: seq![], remaining: quantity, slots }
    } else if !slots[from as int].live {
        fill_slots(slots, from + 1, taker, price, quantity)
    } else {
        let maker = slots[from as int];
        let fill = fill_with(maker.id, maker.quantity, taker, price, quantity);
        let remaining = difference(quantity, fill.quantity);
        let after = slots.update(from as int, after_fill(maker, fill.quantity));
        if fill.quantity.units() == maker.quantity.units() {
            let rest = fill_slots(after, from + 1, taker, price, remaining);
            SlotsOutcome {
                fills: seq![fill] + rest.fills,
                retired: seq![maker.id] + rest.retired,
                remaining: rest.remaining,
                slots: rest.slots,
            }
        } else {
            SlotsOutcome { fills: seq![fill], retired: seq![], remaining, slots: after }
        }
    }
}

/// A trade neither moves orders nor brings any: each place keeps its id, and where an order rests
/// afterwards, one rested before. The ids of the orders that went are those that were retired.
pub proof fn lemma_fill_slots_places(
    slots: Seq<Slot>,
    from: nat,
    taker: OrderId,
    price: Price,
    quantity: Quantity,
)
    ensures
        ({
            let out = fill_slots(slots, from, taker, price, quantity);
            &&& out.slots.len() == slots.len()
            &&& forall|i: int| #![trigger out.slots[i]]
                0 <= i < slots.len() ==> {
                    &&& out.slots[i].id == slots[i].id
                    &&& out.slots[i].live ==> slots[i].live
                    &&& slots[i].live && !out.slots[i].live ==> i >= from && out.retired.contains(
                        slots[i].id,
                    )
                }
            &&& forall|id: OrderId| #[trigger]
                out.retired.contains(id) ==> exists|i: int|
                    0 <= i < slots.len() && #[trigger] slots[i].id == id && slots[i].live
                        && !out.slots[i].live
        }),
    decreases slots.len() - from,
{
    let out = fill_slots(slots, from, taker, price, quantity);
    if from >= slots.len() || quantity.units() <= 0 {
    } else if !slots[from as int].live {
        lemma_fill_slots_places(slots, from + 1, taker, price, quantity);
    } else {
        let maker = slots[from as int];
        let fill = fill_with(maker.id, maker.quantity, taker, price, quantity);
        if fill.quantity.units() == maker.quantity.units() {
            let next = slots.update(from as int, after_fill(maker, fill.quantity));
            let left = difference(quantity, fill.quantity);
            let rest = fill_slots(next, from + 1, taker, price, left);
            lemma_fill_slots_places(next, from + 1, taker, price, left);
            assert(out.retired[0] == maker.id);
            assert forall|id: OrderId| #[trigger]
                rest.retired.contains(id) implies out.retired.contains(id) by {
                let k = choose|k: int| 0 <= k < rest.retired.len() && rest.retired[k] == id;
                assert(out.retired[k + 1] == id);
            }
            assert forall|i: int| #![trigger out.slots[i]] 0 <= i < slots.len() implies {
                &&& out.slots[i].id == slots[i].id
                &&& out.slots[i].live ==> slots[i].live
                &&& slots[i].live && !out.slots[i].live ==> i >= from && out.retired.contains(
                    slots[i].id,
                )
            } by {
                assert(rest.slots[i].id == next[i].id);
            }
            assert forall|id: OrderId| #[trigger] out.retired.contains(id) implies exists|i: int|
                0 <= i < slots.len() && #[trigger] slots[i].id == id && slots[i].live
                    && !out.slots[i].live by {
                if rest.retired.contains(id) {
                    let i = choose|i: int|
                        0 <= i < next.len() && #[trigger] next[i].id == id && next[i].live
                            && !rest.slots[i].live;
                    assert(slots[i].id == id);
                } else {
                    let k = choose|k: int| 0 <= k < out.retired.len() && out.retired[k] == id;
                    if k > 0 {
                        assert(rest.retired[k - 1] == id);
                    }
                    assert(slots[from as int].id == id);
                    assert(rest.slots[from as int].id == next[from as int].id);
                }
            }
        }
    }
}

/// A trade does not bring orders to a level that has none.
pub proof fn lemma_fill_slots_any_live(
    slots: Seq<Slot>,
    from: nat,
    taker: OrderId,
    price: Price,
    quantity: Quantity,
)
    ensures
        any_live(fill_slots(slots, from, taker, price, quantity).slots) ==> any_live(slots),
{
    let out = fill_slots(slots, from, taker, price, quantity);
    lemma_fill_slots_places(slots, from, taker, price, quantity);
    if any_live(out.slots) {
        let i = choose|i: int| 0 <= i < out.slots.len() && (#[trigger] out.slots[i]).live;
        assert(slots[i].live);
    }
}

/// Leaving out the tombstones keeps the places well formed.
pub proof fn lemma_live_only_wf(slots: Seq<Slot>)
    requires
        slots_wf(slots),
    ensures
        slots_wf(live_only(slots)),
{
    lemma_live_only(slots);
    assert forall|i: int|
        0 <= i < live_only(slots).len() && (#[trigger] live_only(slots)[i]).live implies live_only(
        slots,
    )[i].quantity.valid() && live_only(slots)[i].quantity.units() > 0 by {
        let k = choose|k: int| 0 <= k < slots.len() && slots[k] == live_only(slots)[i];
        assert(slots[k].live);
    }
}

} // verus!
