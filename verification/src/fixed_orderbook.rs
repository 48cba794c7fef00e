//! A book with a fixed row of prices, and room for a fixed number of orders at each.
use crate::decimal::{
    checked_divided_by, checked_minus, checked_plus, checked_times, fraction,
    lemma_difference_in_range, lemma_pow10_positive, minus, pow10, to_usize, Decimal,
    UNITS_PER_ONE,
};
use crate::fixed_state::{
    lemma_fewer_uncrossed, lemma_push_keeps_uncrossed, lemma_tombstone, renumbered, tombstone,
    FixedState, Location,
};
use crate::grid::{lemma_near, Grid};
use crate::levels::{
    beats, is_best_level, lemma_best_level, lemma_no_best_level, levels_wf, next_level, no_orders,
    sweep_levels, sweep_priced, trade_levels, trade_priced,
};
use crate::matching::{
    fill_with, lemma_without_concat, lemma_without_nothing, lemma_without_push, without,
};
use crate::orderbook::opposite;
use crate::ring_level::{
    any_live, lemma_live_only, live_only, power_of_two, MAX_SLOTS, RingLevel, Slot,
};
use crate::slots::{after_fill, fill_slots, lemma_fill_slots_any_live, lemma_live_only_wf, slots_wf};
use crate::types::{Fill, OrderId, Price, Quantity, Side};
use rustc_hash::FxHashMap;
use vstd::prelude::*;

verus! {

#[derive(Debug)]
pub enum FixedBookError {
    /// The price, and the first and the last price of the book.
    PriceOutOfRange(Price, Price, Price),
    /// The price, and how many orders a level has room for.
    LevelFull(Price, usize),
    NotFound(OrderId),
}

/// The hasher of `rustc_hash`.
#[verifier::external_type_specification]
#[verifier::external_body]
pub struct ExFxBuildHasher(rustc_hash::FxBuildHasher);

/// `insert` of a `rustc_hash::FxHashMap`, which is a `std::collections::HashMap`: the entry of
/// `id` becomes `location`.
#[verifier::external_body]
fn index_insert(index: &mut FxHashMap<OrderId, Location>, id: OrderId, location: Location)
    ensures
        final(index)@ == old(index)@.insert(id, location),
{
    index.insert(id, location);
}

/// `remove` of a `rustc_hash::FxHashMap`, which is a `std::collections::HashMap`: takes out the
/// entry of `id`, where there is one.
#[verifier::external_body]
fn index_remove(index: &mut FxHashMap<OrderId, Location>, id: OrderId) -> (r: Option<Location>)
    ensures
        final(index)@ == old(index)@.remove(id),
        r == (if old(index)@.contains_key(id) {
            Some(old(index)@[id])
        } else {
            None
        }),
{
    index.remove(&id)
}

/// `get_mut` of a `rustc_hash::FxHashMap`, which is a `std::collections::HashMap`: the entry of
/// `id`, to be written to.
#[verifier::external_body]
fn index_get_mut<'a>(
    index: &'a mut FxHashMap<OrderId, Location>,
    id: OrderId,
) -> (r: Option<&'a mut Location>)
    ensures
        match r {
            Some(entry) => old(index)@.contains_key(id) && *entry == old(index)@[id]
                && final(index)@ == old(index)@.insert(id, *final(entry)),
            None => !old(index)@.contains_key(id) && final(index)@ == old(index)@,
        },
{
    index.get_mut(&id)
}

/// Trades `quantity` with the orders of one level.
fn trade_with_level<const DEPTH: usize>(
    ring: &mut RingLevel<DEPTH>,
    index: &mut FxHashMap<OrderId, Location>,
    taker: OrderId,
    price: Price,
    quantity: Quantity,
    fills: &mut Vec<Fill>,
) -> (remaining: Quantity)
    requires
        old(ring).wf(),
        slots_wf(old(ring)@.taken()),
    ensures
        ({
            let out = fill_slots(old(ring)@.taken(), 0, taker, price, quantity);
            &&& final(ring)@.taken() == out.slots
            &&& final(index)@ == without(old(index)@, out.retired)
            &&& final(fills)@ == old(fills)@ + out.fills
            &&& remaining == out.remaining
        }),
        final(ring).wf(),
        slots_wf(final(ring)@.taken()),
        remaining.units() > 0 ==> final(ring)@.is_empty(),
{
    let ghost out = fill_slots(ring@.taken(), 0, taker, price, quantity);
    let ghost mut made: Seq<Fill> = seq![];
    let ghost mut retired: Seq<OrderId> = seq![];
    let mut remaining = quantity;
    let mut cursor: u32 = ring.head();
    proof {
        ring.lemma_wf();
        lemma_without_nothing(index@);
        assert(fills@ + made =~= fills@);
        assert(made + out.fills =~= out.fills);
        assert(retired + out.retired =~= out.retired);
    }
    while remaining.is_positive() && cursor != ring.tail()
        invariant
            ring.wf(),
            ring@.wf(DEPTH as int),
            ring@.tail == old(ring)@.tail,
            cursor <= ring@.tail,
            slots_wf(ring@.taken()),
            remaining.units() > 0 ==> forall|i: int|
                0 <= i < cursor ==> !(#[trigger] ring@.slots[i]).live,
            ({
                let rest = fill_slots(ring@.taken(), cursor as nat, taker, price, remaining);
                &&& out.fills == made + rest.fills
                &&& out.retired == retired + rest.retired
                &&& out.remaining == rest.remaining
                &&& out.slots == rest.slots
            }),
            index@ == without(old(index)@, retired),
            fills@ == old(fills)@ + made,
        decreases ring@.tail - cursor,
    {
        let ghost before = ring@.taken();
        let ghost rest = fill_slots(before, cursor as nat, taker, price, remaining);
        let slot: usize = RingLevel::<DEPTH>::slot(cursor);
        proof {
            vstd::arithmetic::div_mod::lemma_small_mod(cursor as nat, DEPTH as nat);
            assert(before[slot as int] == ring@.slots[slot as int]);
        }
        if ring.is_live(slot) {
            let maker_qty = ring.qty(slot);
            let maker_id: OrderId = ring.order_id(slot);
            let fill_qty = remaining.min(maker_qty);
            let fill = Fill {
                maker_order_id: maker_id,
                taker_order_id: taker,
                price,
                quantity: fill_qty,
            };
            fills.push(fill);
            let ghost maker = before[slot as int];
            proof {
                use_type_invariant(&remaining);
                lemma_difference_in_range(maker_qty, fill_qty);
                lemma_difference_in_range(remaining, fill_qty);
                assert(fill == fill_with(maker.id, maker.quantity, taker, price, remaining));
            }
            remaining = minus(remaining, fill_qty);
            if fill_qty == maker_qty {
                ring.cancel(slot as u16);
                index_remove(index, maker_id);
                proof {
                    lemma_without_push(old(index)@, retired, maker_id);
                    retired = retired.push(maker_id);
                }
            } else {
                ring.set_qty(slot, minus(maker_qty, fill_qty));
            }
            proof {
                let after = after_fill(maker, fill_qty);
                assert(ring@.taken() =~= before.update(slot as int, after));
                let next = fill_slots(
                    before.update(slot as int, after),
                    (cursor + 1) as nat,
                    taker,
                    price,
                    remaining,
                );
                assert(made + rest.fills =~= made.push(fill) + next.fills);
                made = made.push(fill);
            }
        }
        proof {
            ring.lemma_wf();
        }
        cursor = cursor + 1;
    }
    proof {
        assert(made + Seq::<Fill>::empty() =~= made);
        assert(retired + Seq::<OrderId>::empty() =~= retired);
    }
    remaining
}

/// The price of level `i` of a grid, which starts at `base` and goes up by `tick`.
fn grid_price(base: Price, tick: Price, i: usize) -> (r: Option<Price>)
    ensures
        ({
            let grid = Grid { base, tick, levels: 0 };
            match r {
                Some(price) => grid.priced(i as int) && price == grid.price(i as int)
                    && price.valid(),
                None => !grid.priced(i as int),
            }
        }),
{
    match checked_times(tick, Decimal::from_usize(i)) {
        Some(steps) => checked_plus(base, steps),
        None => None,
    }
}

/// The level that comes `steps` levels after `start` for an incoming order.
spec fn level_after(side: Side, start: int, steps: int) -> int {
    match side {
        Side::Buy => start - steps,
        Side::Sell => start + steps,
    }
}

/// The levels of one side.
pub struct FixedBookSide<const LEVELS: usize, const DEPTH: usize> {
    levels: Vec<RingLevel<DEPTH>>,
    side: Side,
    best_level: Option<usize>,
}

/// The levels with the places that have been taken at each, lowest price first.
impl<const LEVELS: usize, const DEPTH: usize> View for FixedBookSide<LEVELS, DEPTH> {
    type V = Seq<Seq<Slot>>;

    closed spec fn view(&self) -> Seq<Seq<Slot>> {
        Seq::new(self.levels@.len(), |i: int| self.levels@[i]@.taken())
    }
}

impl<const LEVELS: usize, const DEPTH: usize> FixedBookSide<LEVELS, DEPTH> {
    /// The side that these levels are of.
    pub closed spec fn side(self) -> Side {
        self.side
    }

    /// There are `LEVELS` levels, each of them well formed.
    spec fn rings_wf(self) -> bool {
        &&& self.levels@.len() == LEVELS
        &&& forall|i: int| 0 <= i < LEVELS ==> (#[trigger] self.levels@[i]).wf()
    }

    /// The best level is known.
    pub closed spec fn wf(self) -> bool {
        &&& self.rings_wf()
        &&& match self.best_level {
            Some(best) => is_best_level(self.side, self@, best as int),
            None => no_orders(self@),
        }
    }

    /// What every side satisfies: no level has more orders than it has room for.
    pub proof fn lemma_wf(self)
        requires
            self.wf(),
        ensures
            self@.len() == LEVELS,
            forall|i: int| 0 <= i < LEVELS ==> (#[trigger] self@[i]).len() <= DEPTH,
            forall|i: int| 0 <= i < LEVELS ==> (#[trigger] self@[i]).len() <= MAX_SLOTS,
    {
        assert forall|i: int| 0 <= i < LEVELS implies (#[trigger] self@[i]).len() <= DEPTH
            && self@[i].len() <= MAX_SLOTS by {
            self.levels@[i].lemma_wf();
        }
    }

    /// A side without orders.
    pub fn new(side: Side) -> (r: Self)
        requires
            LEVELS == 0 || power_of_two(DEPTH as int),
        ensures
            r.wf(),
            r.side() == side,
            r@ == Seq::new(LEVELS as nat, |i: int| Seq::<Slot>::empty()),
    {
        let r = FixedBookSide { levels: Self::alloc_levels(), side, best_level: None };
        assert(r@ =~= Seq::new(LEVELS as nat, |i: int| Seq::<Slot>::empty()));
        r
    }

    fn alloc_levels() -> (levels: Vec<RingLevel<DEPTH>>)
        requires
            LEVELS == 0 || power_of_two(DEPTH as int),
        ensures
            levels@.len() == LEVELS,
            forall|i: int|
                0 <= i < LEVELS ==> (#[trigger] levels@[i]).wf() && levels@[i]@.taken() == Seq::<
                    Slot,
                >::empty(),
    {
        let mut levels: Vec<RingLevel<DEPTH>> = Vec::new();
        let mut i: usize = 0;
        while i < LEVELS
            invariant
                LEVELS == 0 || power_of_two(DEPTH as int),
                i <= LEVELS,
                levels@.len() == i,
                forall|j: int|
                    0 <= j < i ==> (#[trigger] levels@[j]).wf() && levels@[j]@.taken() == Seq::<
                        Slot,
                    >::empty(),
            decreases LEVELS - i,
        {
            let ring = RingLevel::new();
            assert(ring@.taken() =~= Seq::<Slot>::empty());
            levels.push(ring);
            i = i + 1;
        }
        levels
    }

    /// Puts an order at the next place of a level, which it returns; or `None`, if every place
    /// there is taken.
    pub fn push_at(&mut self, level_idx: usize, order_id: OrderId, qty: Quantity) -> (r: Option<
        u16,
    >)
        requires
            old(self).wf(),
            level_idx < LEVELS,
            DEPTH <= MAX_SLOTS || old(self)@[level_idx as int].len() < MAX_SLOTS,
        ensures
            final(self).wf(),
            final(self).side() == old(self).side(),
            ({
                let level = old(self)@[level_idx as int];
                match r {
                    Some(slot) => level.len() < DEPTH && slot == level.len() && final(self)@
                        == old(self)@.update(
                        level_idx as int,
                        level.push(Slot { id: order_id, quantity: qty, live: true }),
                    ),
                    None => level.len() == DEPTH && final(self)@ == old(self)@,
                }
            }),
    {
        let ghost level = self@[level_idx as int];
        let ghost before = self.levels@[level_idx as int]@;
        proof {
            self.levels@[level_idx as int].lemma_wf();
        }
        let slot: u16 = match self.levels[level_idx].push(order_id, qty) {
            Some(slot) => slot,
            None => {
                assert(self@ =~= old(self)@);
                return None;
            },
        };
        let ghost order = Slot { id: order_id, quantity: qty, live: true };
        proof {
            assert(before.pushed(order_id, qty).taken() =~= level.push(order));
            assert(self@ =~= old(self)@.update(level_idx as int, level.push(order)));
            assert(level.push(order)[level.len() as int].live);
            assert forall|i: int| 0 <= i < LEVELS && i != level_idx implies any_live(
                #[trigger] self@[i],
            ) == any_live(old(self)@[i]) by {}
        }
        self.update_best_after_insert(level_idx);
        Some(slot)
    }

    /// Cancels the order at a place of a level, leaving a tombstone.
    pub fn cancel_at(&mut self, level_idx: usize, slot: u16)
        requires
            old(self).wf(),
            level_idx < LEVELS,
            slot < old(self)@[level_idx as int].len(),
            old(self)@[level_idx as int][slot as int].live,
        ensures
            final(self).wf(),
            final(self).side() == old(self).side(),
            final(self)@ == old(self)@.update(
                level_idx as int,
                tombstone(old(self)@[level_idx as int], slot as int),
            ),
    {
        let ghost level = self@[level_idx as int];
        let ghost before = self.levels@[level_idx as int]@;
        proof {
            self.levels@[level_idx as int].lemma_wf();
        }
        self.levels[level_idx].cancel(slot);
        proof {
            let after = self.levels@[level_idx as int];
            after.lemma_wf();
            after@.lemma_empty(DEPTH as int);
            assert(before.cancelled(slot as int).taken() =~= tombstone(level, slot as int));
            assert(self@ =~= old(self)@.update(level_idx as int, tombstone(level, slot as int)));
            lemma_tombstone(level, slot as int);
            assert forall|i: int| 0 <= i < LEVELS && any_live(#[trigger] self@[i]) implies any_live(
                old(self)@[i],
            ) by {}
        }
        let is_best: bool = match self.best_level {
            Some(best) => best == level_idx,
            None => false,
        };
        if self.levels[level_idx].is_empty() && is_best {
            self.best_level = self.scan_for_best();
        }
    }

    /// The best level at which an order rests.
    pub fn best_level_idx(&self) -> (r: Option<usize>)
        requires
            self.wf(),
        ensures
            match r {
                Some(best) => is_best_level(self.side(), self@, best as int),
                None => no_orders(self@),
            },
    {
        self.best_level
    }

    /// Trades `quantity` with the levels from the best one as far as level `limit`. Returns what
    /// is left of it, and the trades.
    fn trade(
        &mut self,
        index: &mut FxHashMap<OrderId, Location>,
        base: Price,
        tick: Price,
        limit: usize,
        taker: OrderId,
        quantity: Quantity,
    ) -> (r: (Quantity, Vec<Fill>))
        requires
            old(self).wf(),
            levels_wf(old(self)@),
            LEVELS > 0 ==> limit < LEVELS,
            trade_priced(
                (Grid { base, tick, levels: LEVELS as nat }),
                old(self).side,
                old(self)@,
                limit as int,
                taker,
                quantity,
            ),
        ensures
            final(self).wf(),
            final(self).side == old(self).side,
            levels_wf(final(self)@),
            ({
                let out = trade_levels(
                    Grid { base, tick, levels: LEVELS as nat },
                    old(self).side,
                    old(self)@,
                    limit as int,
                    taker,
                    quantity,
                );
                &&& r.0 == out.remaining
                &&& r.1@ == out.fills
                &&& final(self)@ == out.levels
                &&& final(index)@ == without(old(index)@, out.retired)
            }),
            forall|i: int|
                0 <= i < LEVELS && any_live(#[trigger] final(self)@[i]) ==> any_live(old(self)@[i]),
            r.0.units() > 0 ==> forall|i: int|
                0 <= i < LEVELS && any_live(#[trigger] final(self)@[i]) ==> beats(
                    old(self).side,
                    limit as int,
                    i,
                ),
    {
        let ghost grid = Grid { base, tick, levels: LEVELS as nat };
        let ghost side = self.side;
        let mut fills: Vec<Fill> = Vec::new();
        let start: usize = match self.best_level {
            Some(start) => start,
            None => {
                proof {
                    lemma_no_best_level(side, self@);
                    lemma_without_nothing(index@);
                }
                return (quantity, fills);
            },
        };
        proof {
            lemma_best_level(side, self@, start as int);
            lemma_without_nothing(index@);
        }
        let count: usize = match self.side {
            Side::Buy => if start >= limit {
                start - limit + 1
            } else {
                0
            },
            Side::Sell => if start <= limit {
                limit - start + 1
            } else {
                0
            },
        };
        let ghost out = sweep_levels(
            grid,
            side,
            self@,
            start as int,
            limit as int,
            taker,
            quantity,
        );
        let ghost mut made: Seq<Fill> = seq![];
        let ghost mut retired: Seq<OrderId> = seq![];
        let mut remaining = quantity;
        let mut visited: usize = 0;
        proof {
            assert(made + out.fills =~= out.fills);
            assert(retired + out.retired =~= out.retired);
        }
        while remaining.is_positive() && visited < count
            invariant
                self.rings_wf(),
                self.side == side,
                old(self)@.len() == LEVELS,
                self@.len() == LEVELS,
                levels_wf(self@),
                grid == (Grid { base, tick, levels: LEVELS as nat }),
                limit < LEVELS,
                start < LEVELS,
                visited <= count,
                count == (match side {
                    Side::Buy => if start >= limit {
                        start - limit + 1
                    } else {
                        0
                    },
                    Side::Sell => if start <= limit {
                        limit - start + 1
                    } else {
                        0
                    },
                }),
                forall|i: int|
                    0 <= i < LEVELS && any_live(#[trigger] self@[i]) ==> any_live(old(self)@[i]),
                remaining.units() > 0 ==> forall|i: int|
                    0 <= i < LEVELS && any_live(#[trigger] self@[i]) ==> !beats(
                        side,
                        i,
                        level_after(side, start as int, visited as int),
                    ),
                ({
                    let at = level_after(side, start as int, visited as int);
                    let rest = sweep_levels(grid, side, self@, at, limit as int, taker, remaining);
                    &&& sweep_priced(grid, side, self@, at, limit as int, taker, remaining)
                    &&& out.fills == made + rest.fills
                    &&& out.retired == retired + rest.retired
                    &&& out.remaining == rest.remaining
                    &&& out.levels == rest.levels
                }),
                index@ == without(old(index)@, retired),
                fills@ == made,
            decreases count - visited,
        {
            let li: usize = match self.side {
                Side::Buy => start - visited,
                Side::Sell => start + visited,
            };
            let ghost before = self@;
            let ghost rest = sweep_levels(
                grid,
                side,
                before,
                li as int,
                limit as int,
                taker,
                remaining,
            );
            let ghost here = fill_slots(
                before[li as int],
                0,
                taker,
                grid.price(li as int),
                remaining,
            );
            let ghost remaining_before = remaining;
            let price = grid_price(base, tick, li).unwrap();
            proof {
                assert(slots_wf(before[li as int]));
            }
            remaining =
            trade_with_level(&mut self.levels[li], index, taker, price, remaining, &mut fills);
            proof {
                assert(self@ =~= before.update(li as int, here.slots));
                let after = sweep_levels(
                    grid,
                    side,
                    self@,
                    next_level(side, li as int),
                    limit as int,
                    taker,
                    remaining,
                );
                assert(made + rest.fills =~= (made + here.fills) + after.fills);
                assert(retired + rest.retired =~= (retired + here.retired) + after.retired);
                lemma_without_concat(old(index)@, retired, here.retired);
                made = made + here.fills;
                retired = retired + here.retired;
                let ring = self.levels@[li as int];
                ring.lemma_wf();
                ring@.lemma_empty(DEPTH as int);
                assert forall|i: int|
                    0 <= i < LEVELS && any_live(#[trigger] self@[i]) implies any_live(
                    before[i],
                ) by {
                    if i == li {
                        lemma_fill_slots_any_live(
                            before[i],
                            0,
                            taker,
                            grid.price(li as int),
                            remaining_before,
                        );
                    }
                }
            }
            visited = visited + 1;
        }
        proof {
            assert(made + Seq::<Fill>::empty() =~= made);
            assert(retired + Seq::<OrderId>::empty() =~= retired);
        }
        self.best_level = self.scan_for_best();
        (remaining, fills)
    }

    /// Frees the places of a level that were given up, and renews the index.
    fn compact(
        &mut self,
        level_idx: usize,
        scratch: &mut RingLevel<DEPTH>,
        index: &mut FxHashMap<OrderId, Location>,
    )
        requires
            old(self).wf(),
            level_idx < LEVELS,
            old(scratch).wf(),
        ensures
            final(self).wf(),
            final(self).side == old(self).side,
            final(scratch).wf(),
            ({
                let kept = live_only(old(self)@[level_idx as int]);
                &&& final(self)@ == old(self)@.update(level_idx as int, kept)
                &&& final(index)@ == renumbered(old(index)@, kept)
            }),
            forall|i: int|
                0 <= i < LEVELS && any_live(#[trigger] final(self)@[i]) ==> any_live(old(self)@[i]),
            levels_wf(old(self)@) ==> levels_wf(final(self)@),
    {
        let ghost level = self@[level_idx as int];
        scratch.reset();
        let mut cursor: u32 = self.levels[level_idx].head();
        proof {
            self.levels@[level_idx as int].lemma_wf();
            assert(scratch@.taken() =~= live_only(level.take(0)));
        }
        while cursor != self.levels[level_idx].tail()
            invariant
                level_idx < LEVELS,
                *self == *old(self),
                self.rings_wf(),
                self.levels@[level_idx as int]@.wf(DEPTH as int),
                level == self.levels@[level_idx as int]@.taken(),
                cursor <= level.len(),
                scratch.wf(),
                scratch@.tail <= cursor,
                scratch@.taken() == live_only(level.take(cursor as int)),
            decreases level.len() - cursor,
        {
            let slot: usize = RingLevel::<DEPTH>::slot(cursor);
            let ghost before = scratch@;
            proof {
                vstd::arithmetic::div_mod::lemma_small_mod(cursor as nat, DEPTH as nat);
                scratch.lemma_wf();
                assert(level.take(cursor + 1).drop_last() =~= level.take(cursor as int));
                assert(level.take(cursor + 1).last() == level[slot as int]);
            }
            if self.levels[level_idx].is_live(slot) {
                let id: OrderId = self.levels[level_idx].order_id(slot);
                let qty = self.levels[level_idx].qty(slot);
                scratch.push(id, qty);
                proof {
                    assert(before.pushed(id, qty).taken() =~= before.taken().push(
                        level[slot as int],
                    ));
                }
            }
            cursor = cursor + 1;
        }
        let ghost kept = live_only(level);
        proof {
            assert(level.take(level.len() as int) =~= level);
            lemma_live_only(level);
        }
        std::mem::swap(&mut self.levels[level_idx], scratch);
        proof {
            assert(self@ =~= old(self)@.update(level_idx as int, kept));
            if levels_wf(old(self)@) {
                assert(slots_wf(old(self)@[level_idx as int]));
                lemma_live_only_wf(level);
            }
            assert forall|i: int| 0 <= i < LEVELS implies any_live(#[trigger] self@[i]) == any_live(
                old(self)@[i],
            ) by {}
            self.levels@[level_idx as int].lemma_wf();
            assert(renumbered(index@, kept.take(0)) =~= index@);
        }
        let ghost compacted = *self;
        let mut cursor: u32 = self.levels[level_idx].head();
        while cursor != self.levels[level_idx].tail()
            invariant
                level_idx < LEVELS,
                *self == compacted,
                self.rings_wf(),
                self.levels@[level_idx as int]@.wf(DEPTH as int),
                kept == self.levels@[level_idx as int]@.taken(),
                cursor <= kept.len(),
                index@ == renumbered(old(index)@, kept.take(cursor as int)),
            decreases kept.len() - cursor,
        {
            proof {
                vstd::arithmetic::div_mod::lemma_small_mod(cursor as nat, DEPTH as nat);
            }
            let slot: u16 = RingLevel::<DEPTH>::slot(cursor) as u16;
            let oid: OrderId = self.levels[level_idx].order_id(slot as usize);
            let ghost before = index@;
            match index_get_mut(index, oid) {
                Some(entry) => {
                    entry.2 = slot;
                },
                None => {},
            }
            proof {
                let seen = kept.take(cursor + 1);
                assert(seen.drop_last() =~= kept.take(cursor as int));
                assert(seen.last() == kept[slot as int]);
                assert(index@ =~= renumbered(old(index)@, seen));
            }
            cursor = cursor + 1;
        }
        proof {
            assert(kept.take(kept.len() as int) =~= kept);
        }
    }

    fn update_best_after_insert(&mut self, level_idx: usize)
        requires
            old(self).rings_wf(),
            level_idx < LEVELS,
            any_live(old(self)@[level_idx as int]),
            match old(self).best_level {
                Some(best) => {
                    &&& best < LEVELS
                    &&& any_live(old(self)@[best as int])
                    &&& forall|i: int|
                        0 <= i < LEVELS && i != level_idx && any_live(#[trigger] old(self)@[i])
                            ==> !beats(old(self).side, i, best as int)
                },
                None => forall|i: int|
                    0 <= i < LEVELS && i != level_idx ==> !any_live(#[trigger] old(self)@[i]),
            },
        ensures
            final(self).wf(),
            final(self)@ == old(self)@,
            final(self).side == old(self).side,
    {
        match self.best_level {
            None => self.best_level = Some(level_idx),
            Some(current) => {
                let is_better = match self.side {
                    Side::Buy => level_idx > current,
                    Side::Sell => level_idx < current,
                };
                if is_better {
                    self.best_level = Some(level_idx);
                }
            },
        }
    }

    fn scan_for_best(&self) -> (r: Option<usize>)
        requires
            self.rings_wf(),
        ensures
            match r {
                Some(best) => is_best_level(self.side, self@, best as int),
                None => no_orders(self@),
            },
    {
        let mut seen: usize = 0;
        while seen < LEVELS
            invariant
                self.rings_wf(),
                seen <= LEVELS,
                forall|i: int|
                    0 <= i < LEVELS && any_live(#[trigger] self@[i]) ==> match self.side {
                        Side::Buy => i < LEVELS - seen,
                        Side::Sell => i >= seen,
                    },
            decreases LEVELS - seen,
        {
            let i: usize = match self.side {
                Side::Buy => LEVELS - 1 - seen,
                Side::Sell => seen,
            };
            proof {
                self.levels@[i as int].lemma_wf();
                self.levels@[i as int]@.lemma_empty(DEPTH as int);
                assert(self@[i as int] == self.levels@[i as int]@.taken());
            }
            if !self.levels[i].is_empty() {
                return Some(i);
            }
            seen = seen + 1;
        }
        None
    }
}

pub struct FixedOrderBook<const LEVELS: usize, const DEPTH: usize> {
    bids: FixedBookSide<LEVELS, DEPTH>,
    asks: FixedBookSide<LEVELS, DEPTH>,
    /// Where each order rests.
    order_index: FxHashMap<OrderId, Location>,
    /// What a level is compacted into.
    scratch: Box<RingLevel<DEPTH>>,
    base_price: Price,
    tick_size: Price,
}

impl<const LEVELS: usize, const DEPTH: usize> View for FixedOrderBook<LEVELS, DEPTH> {
    type V = FixedState;

    closed spec fn view(&self) -> FixedState {
        FixedState {
            bids: self.bids@,
            asks: self.asks@,
            index: self.order_index@,
            grid: Grid { base: self.base_price, tick: self.tick_size, levels: LEVELS as nat },
            depth: DEPTH,
        }
    }
}

impl<const LEVELS: usize, const DEPTH: usize> FixedOrderBook<LEVELS, DEPTH> {
    /// Each side is well formed.
    pub closed spec fn wf(self) -> bool {
        &&& self.bids.wf()
        &&& self.asks.wf()
        &&& self.bids.side() == Side::Buy
        &&& self.asks.side() == Side::Sell
        &&& self.scratch.wf()
        &&& levels_wf(self.bids@)
        &&& levels_wf(self.asks@)
    }

    /// What every book satisfies.
    pub proof fn lemma_wf(self)
        requires
            self.wf(),
        ensures
            self@.wf(),
            self@.grid.levels == LEVELS,
            self@.depth == DEPTH,
    {
        self.bids.lemma_wf();
        self.asks.lemma_wf();
    }

    /// A book without orders.
    pub fn new(base_price: Price, tick_size: Price) -> (book: Self)
        requires
            power_of_two(DEPTH as int),
        ensures
            book.wf(),
            book@ == FixedState::blank(
                (Grid { base: base_price, tick: tick_size, levels: LEVELS as nat }),
                DEPTH,
            ),
            book@.uncrossed(),
    {
        FixedOrderBook {
            bids: FixedBookSide::new(Side::Buy),
            asks: FixedBookSide::new(Side::Sell),
            order_index: FxHashMap::default(),
            scratch: Box::new(RingLevel::new()),
            base_price,
            tick_size,
        }
    }

    /// Trades an order with the other side of the book as far as `price`; what is left of it
    /// rests at the level of `price`. Returns the trades.
    pub fn add_limit_order(
        &mut self,
        id: OrderId,
        side: Side,
        price: Price,
        qty: Quantity,
    ) -> (r: Result<Vec<Fill>, FixedBookError>)
        requires
            old(self).wf(),
            old(self)@.accepts_limit_order(id, side, price, qty),
        ensures
            final(self).wf(),
            final(self)@ == old(self)@.after_limit_order(id, side, price, qty),
            match r {
                Ok(fills) => old(self)@.limit_order_reply(id, side, price, qty) == Ok::<
                    Seq<Fill>,
                    FixedBookError,
                >(fills@),
                Err(error) => old(self)@.limit_order_reply(id, side, price, qty) == Err::<
                    Seq<Fill>,
                    FixedBookError,
                >(error),
            },
            match old(self)@.grid.place(price) {
                Some(level) => {
                    &&& old(self)@.grid.near(price, level)
                    &&& old(self)@.trades(id, side, level, qty).remaining.units() > 0
                        ==> forall|i: int|
                        0 <= i < LEVELS && any_live(#[trigger] final(self)@.side(opposite(side))[i])
                            ==> beats(opposite(side), level, i)
                },
                None => true,
            },
            old(self)@.uncrossed() ==> final(self)@.uncrossed(),
    {
        let level_idx: usize = match self.price_to_index(price) {
            Ok(level_idx) => level_idx,
            Err(error) => return Err(error),
        };
        let (remaining, fills) = self.match_incoming(id, side, level_idx, qty);
        let ghost traded = self@;
        if remaining.is_positive() {
            proof {
                use_type_invariant(&remaining);
                self.bids.lemma_wf();
                self.asks.lemma_wf();
            }
            let pushed = match side {
                Side::Buy => self.bids.push_at(level_idx, id, remaining),
                Side::Sell => self.asks.push_at(level_idx, id, remaining),
            };
            match pushed {
                Some(slot) => index_insert(&mut self.order_index, id, (side, level_idx, slot)),
                None => return Err(FixedBookError::LevelFull(price, DEPTH)),
            }
            proof {
                assert(self@.side(opposite(side)) == traded.side(opposite(side)));
                if traded.uncrossed() {
                    lemma_push_keeps_uncrossed(traded, self@, side, level_idx as int);
                }
            }
        }
        Ok(fills)
    }

    /// Trades an order with the other side of the book at any price; what is left of it is
    /// dropped. Returns the trades.
    pub fn add_market_order(&mut self, id: OrderId, side: Side, qty: Quantity) -> (fills: Vec<Fill>)
        requires
            old(self).wf(),
            side == Side::Buy ==> LEVELS > 0,
            old(self)@.trades_priced(id, side, old(self)@.market_limit(side), qty),
        ensures
            final(self).wf(),
            fills@ == old(self)@.trades(id, side, old(self)@.market_limit(side), qty).fills,
            final(self)@ == old(self)@.after_trades(id, side, old(self)@.market_limit(side), qty),
            old(self)@.uncrossed() ==> final(self)@.uncrossed(),
            old(self)@.trades(id, side, old(self)@.market_limit(side), qty).remaining.units() > 0
                ==> no_orders(final(self)@.side(opposite(side))),
    {
        let limit_level: usize = match side {
            Side::Buy => LEVELS - 1,
            Side::Sell => 0,
        };
        let (_, fills) = self.match_incoming(id, side, limit_level, qty);
        proof {
            self.lemma_wf();
        }
        fills
    }

    /// Trades an order with the other side of the book as far as a level. Returns what is left
    /// of it, and the trades.
    fn match_incoming(
        &mut self,
        id: OrderId,
        side: Side,
        limit_level: usize,
        qty: Quantity,
    ) -> (r: (Quantity, Vec<Fill>))
        requires
            old(self).wf(),
            LEVELS > 0 ==> limit_level < LEVELS,
            old(self)@.trades_priced(id, side, limit_level as int, qty),
        ensures
            final(self).wf(),
            r.0 == old(self)@.trades(id, side, limit_level as int, qty).remaining,
            r.1@ == old(self)@.trades(id, side, limit_level as int, qty).fills,
            final(self)@ == old(self)@.after_trades(id, side, limit_level as int, qty),
            old(self)@.uncrossed() ==> final(self)@.uncrossed(),
            r.0.units() > 0 ==> forall|i: int|
                0 <= i < LEVELS && any_live(#[trigger] final(self)@.side(opposite(side))[i])
                    ==> beats(opposite(side), limit_level as int, i),
    {
        proof {
            self.bids.lemma_wf();
            self.asks.lemma_wf();
        }
        let r = match side {
            Side::Buy => self.asks.trade(
                &mut self.order_index,
                self.base_price,
                self.tick_size,
                limit_level,
                id,
                qty,
            ),
            Side::Sell => self.bids.trade(
                &mut self.order_index,
                self.base_price,
                self.tick_size,
                limit_level,
                id,
                qty,
            ),
        };
        proof {
            lemma_fewer_uncrossed(old(self)@, self@);
        }
        r
    }

    /// Frees the places of a level that were given up. The orders keep their order.
    pub fn compact_level(&mut self, side: Side, level_idx: usize)
        requires
            old(self).wf(),
            level_idx < LEVELS,
        ensures
            final(self).wf(),
            final(self)@ == old(self)@.after_compaction(side, level_idx as int),
            old(self)@.uncrossed() ==> final(self)@.uncrossed(),
    {
        proof {
            self.bids.lemma_wf();
            self.asks.lemma_wf();
        }
        match side {
            Side::Buy => self.bids.compact(level_idx, &mut *self.scratch, &mut self.order_index),
            Side::Sell => self.asks.compact(level_idx, &mut *self.scratch, &mut self.order_index),
        }
        proof {
            lemma_fewer_uncrossed(old(self)@, self@);
        }
    }

    /// Takes an order out of the book.
    pub fn cancel_order(&mut self, id: OrderId) -> (r: Result<(), FixedBookError>)
        requires
            old(self).wf(),
            old(self)@.index.contains_key(id) ==> old(self)@.occupied(old(self)@.index[id]),
        ensures
            final(self).wf(),
            match r {
                Ok(_) => old(self)@.index.contains_key(id),
                Err(error) => !old(self)@.index.contains_key(id) && error
                    == FixedBookError::NotFound(id),
            },
            final(self)@ == old(self)@.after_cancel(id),
            old(self)@.uncrossed() ==> final(self)@.uncrossed(),
    {
        proof {
            self.bids.lemma_wf();
            self.asks.lemma_wf();
        }
        let (side, level_idx, slot) = match index_remove(&mut self.order_index, id) {
            Some(location) => location,
            None => {
                assert(self@.index =~= old(self)@.index);
                return Err(FixedBookError::NotFound(id));
            },
        };
        match side {
            Side::Buy => self.bids.cancel_at(level_idx, slot),
            Side::Sell => self.asks.cancel_at(level_idx, slot),
        }
        proof {
            lemma_tombstone(old(self)@.side(side)[level_idx as int], slot as int);
            lemma_fewer_uncrossed(old(self)@, self@);
        }
        Ok(())
    }

    /// The price of the highest level with a bid.
    pub fn best_bid(&self) -> (r: Option<Price>)
        requires
            self.wf(),
            self@.best_priced(Side::Buy),
        ensures
            r == self@.best_price(Side::Buy),
    {
        match self.bids.best_level_idx() {
            Some(idx) => {
                proof {
                    lemma_best_level(Side::Buy, self@.bids, idx as int);
                }
                Some(self.index_to_price(idx))
            },
            None => {
                proof {
                    lemma_no_best_level(Side::Buy, self@.bids);
                }
                None
            },
        }
    }

    /// The price of the lowest level with an ask.
    pub fn best_ask(&self) -> (r: Option<Price>)
        requires
            self.wf(),
            self@.best_priced(Side::Sell),
        ensures
            r == self@.best_price(Side::Sell),
    {
        match self.asks.best_level_idx() {
            Some(idx) => {
                proof {
                    lemma_best_level(Side::Sell, self@.asks, idx as int);
                }
                Some(self.index_to_price(idx))
            },
            None => {
                proof {
                    lemma_no_best_level(Side::Sell, self@.asks);
                }
                None
            },
        }
    }

    /// The prices of the highest level with a bid and of the lowest with an ask, where there are
    /// both.
    pub fn spread(&self) -> (r: Option<(Price, Price)>)
        requires
            self.wf(),
            self@.best_priced(Side::Buy),
            self@.best_price(Side::Buy) is Some ==> self@.best_priced(Side::Sell),
        ensures
            r == (match (self@.best_price(Side::Buy), self@.best_price(Side::Sell)) {
                (Some(bid), Some(ask)) => Some((bid, ask)),
                _ => None,
            }),
    {
        let bid = self.best_bid()?;
        let ask = self.best_ask()?;
        Some((bid, ask))
    }

    /// Whether the price of every level can be computed.
    pub fn prices_fit(&self) -> (r: bool)
        ensures
            r == (forall|i: int| 0 <= i < LEVELS ==> #[trigger] self@.grid.priced(i)),
    {
        let mut i: usize = 0;
        while i < LEVELS
            invariant
                i <= LEVELS,
                forall|j: int| 0 <= j < i ==> #[trigger] self@.grid.priced(j),
            decreases LEVELS - i,
        {
            if grid_price(self.base_price, self.tick_size, i).is_none() {
                assert(!self@.grid.priced(i as int));
                return false;
            }
            i = i + 1;
        }
        true
    }

    /// Whether the level of a price can be computed.
    pub fn can_place(&self, price: Price) -> (r: bool)
        ensures
            r == self@.grid.placeable(price),
    {
        match checked_minus(price, self.base_price) {
            Some(offset) => offset.is_sign_negative() || checked_divided_by(
                offset,
                self.tick_size,
            ).is_some(),
            None => false,
        }
    }

    /// Adds a limit order where there are levels, and every price of the book and the level of
    /// `price` can be computed; otherwise returns `None` and leaves the book as it is.
    pub fn checked_limit_order(
        &mut self,
        id: OrderId,
        side: Side,
        price: Price,
        qty: Quantity,
    ) -> (r: Option<Result<Vec<Fill>, FixedBookError>>)
        requires
            old(self).wf(),
            DEPTH <= MAX_SLOTS,
        ensures
            final(self).wf(),
            r is Some <==> LEVELS > 0 && old(self)@.grid.placeable(price) && forall|i: int|
                0 <= i < LEVELS ==> #[trigger] old(self)@.grid.priced(i),
            match r {
                Some(Ok(fills)) => old(self)@.limit_order_reply(id, side, price, qty) == Ok::<
                    Seq<Fill>,
                    FixedBookError,
                >(fills@),
                Some(Err(error)) => old(self)@.limit_order_reply(id, side, price, qty) == Err::<
                    Seq<Fill>,
                    FixedBookError,
                >(error),
                None => true,
            },
            final(self)@ == (if r is Some {
                old(self)@.after_limit_order(id, side, price, qty)
            } else {
                old(self)@
            }),
            old(self)@.uncrossed() ==> final(self)@.uncrossed(),
    {
        if LEVELS == 0 || !self.prices_fit() || !self.can_place(price) {
            return None;
        }
        proof {
            self.lemma_wf();
            if let Some(level) = self@.grid.place(price) {
                self@.lemma_trades_priced(id, side, level, qty);
            }
        }
        Some(self.add_limit_order(id, side, price, qty))
    }

    /// Adds a market order where there are levels and every price of the book can be computed;
    /// otherwise returns `None` and leaves the book as it is.
    pub fn checked_market_order(&mut self, id: OrderId, side: Side, qty: Quantity) -> (r: Option<
        Vec<Fill>,
    >)
        requires
            old(self).wf(),
        ensures
            final(self).wf(),
            r is Some <==> LEVELS > 0 && forall|i: int|
                0 <= i < LEVELS ==> #[trigger] old(self)@.grid.priced(i),
            match r {
                Some(fills) => {
                    let limit = old(self)@.market_limit(side);
                    &&& fills@ == old(self)@.trades(id, side, limit, qty).fills
                    &&& final(self)@ == old(self)@.after_trades(id, side, limit, qty)
                },
                None => final(self)@ == old(self)@,
            },
            old(self)@.uncrossed() ==> final(self)@.uncrossed(),
    {
        if LEVELS == 0 || !self.prices_fit() {
            return None;
        }
        proof {
            self.lemma_wf();
            self@.lemma_trades_priced(id, side, self@.market_limit(side), qty);
        }
        Some(self.add_market_order(id, side, qty))
    }

    /// The spread, where every price of the book can be computed; otherwise `None`.
    pub fn checked_spread(&self) -> (r: Option<Option<(Price, Price)>>)
        requires
            self.wf(),
        ensures
            r == (if forall|i: int| 0 <= i < LEVELS ==> #[trigger] self@.grid.priced(i) {
                Some(
                    match (self@.best_price(Side::Buy), self@.best_price(Side::Sell)) {
                        (Some(bid), Some(ask)) => Some((bid, ask)),
                        _ => None,
                    },
                )
            } else {
                None
            }),
    {
        if !self.prices_fit() {
            return None;
        }
        proof {
            self.lemma_wf();
        }
        Some(self.spread())
    }

    /// The level of a price.
    fn price_to_index(&self, price: Price) -> (r: Result<usize, FixedBookError>)
        requires
            self@.grid.placeable(price),
            self@.grid.place(price) is None ==> LEVELS > 0 && self@.grid.priced(LEVELS - 1),
        ensures
            match r {
                Ok(level) => self@.grid.place(price) == Some(level as int) && self@.grid.near(
                    price,
                    level as int,
                ),
                Err(error) => self@.grid.place(price) is None && error == self@.range_error(price),
            },
    {
        let offset = minus(price, self.base_price);
        if offset.is_sign_negative() {
            return Err(self.range_error(price));
        }
        let ticks = checked_divided_by(offset, self.tick_size).unwrap();
        let ghost units = ticks.units();
        if !fraction(ticks).is_zero() {
            return Err(self.range_error(price));
        }
        let idx: usize = match to_usize(ticks) {
            Some(idx) => idx,
            None => return Err(self.range_error(price)),
        };
        if idx >= LEVELS {
            return Err(self.range_error(price));
        }
        proof {
            vstd::arithmetic::div_mod::lemma_fundamental_div_mod_converse(
                units,
                UNITS_PER_ONE as int,
                idx as int,
                0,
            );
            assert(pow10(0) > 0 && pow10(9) > 0) by {
                lemma_pow10_positive(0);
                lemma_pow10_positive(9);
            }
            lemma_near(offset.units(), self.tick_size.units(), idx as int);
        }
        Ok(idx)
    }

    /// The price of a level.
    fn index_to_price(&self, idx: usize) -> (r: Price)
        requires
            self@.grid.priced(idx as int),
        ensures
            r == self@.grid.price(idx as int),
    {
        grid_price(self.base_price, self.tick_size, idx).unwrap()
    }

    /// The error that a price outside the book is answered with.
    fn range_error(&self, price: Price) -> (r: FixedBookError)
        requires
            LEVELS > 0,
            self@.grid.priced(LEVELS - 1),
        ensures
            r == self@.range_error(price),
    {
        let max_price = self.index_to_price(LEVELS - 1);
        FixedBookError::PriceOutOfRange(price, self.base_price, max_price)
    }
}

} // verus!
