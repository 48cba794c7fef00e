//! Tombstones do not show: books that differ in tombstones only answer alike, so compacting a level
//! makes no difference to what comes after.
use crate::fixed_book_laws::{
    lemma_all_live, lemma_live_only_distinct, lemma_live_only_tombstone,
    lemma_tombstones_make_no_difference, orders_of,
};
use crate::fixed_state::{levels_fit, FixedState};
use crate::grid::Grid;
use crate::levels::{
    beats, best_level, is_best_level, lemma_best_level, levels_wf, next_level, sweep_levels,
};
use crate::orderbook::opposite;
use crate::ring_level::{any_live, lemma_live_only, live_only, Slot};
use crate::slots::{fill_slots, lemma_live_only_wf, slots_wf};
use crate::types::{OrderId, Price, Quantity, Side};
use vstd::prelude::*;

verus! {

/// Whether two sides have the same orders at each level, in the same order.
pub open spec fn alike_levels(a: Seq<Seq<Slot>>, b: Seq<Seq<Slot>>) -> bool {
    &&& a.len() == b.len()
    &&& forall|l: int| 0 <= l < a.len() ==> live_only(#[trigger] a[l]) == live_only(b[l])
}

/// Whether two books have the same orders and know them by the same ids: they may differ in their
/// tombstones, and so in the places of their orders.
pub open spec fn alike(a: FixedState, b: FixedState) -> bool {
    &&& a.grid == b.grid
    &&& alike_levels(a.bids, b.bids)
    &&& alike_levels(a.asks, b.asks)
    &&& a.index.dom() == b.index.dom()
}

/// Sides that are alike have orders at the same levels.
proof fn lemma_alike_live(a: Seq<Seq<Slot>>, b: Seq<Seq<Slot>>)
    requires
        alike_levels(a, b),
    ensures
        forall|l: int| 0 <= l < a.len() ==> any_live(#[trigger] a[l]) == any_live(b[l]),
{
    assert forall|l: int| 0 <= l < a.len() implies any_live(#[trigger] a[l]) == any_live(b[l]) by {
        lemma_live_only(a[l]);
        lemma_live_only(b[l]);
    }
}

/// Sides that are alike have the same best level.
proof fn lemma_alike_best(side: Side, a: Seq<Seq<Slot>>, b: Seq<Seq<Slot>>)
    requires
        alike_levels(a, b),
    ensures
        best_level(side, a) == best_level(side, b),
{
    lemma_alike_live(a, b);
    assert forall|best: int| is_best_level(side, a, best) <==> is_best_level(side, b, best) by {
        if is_best_level(side, a, best) {
            assert forall|i: int| 0 <= i < b.len() && any_live(#[trigger] b[i]) implies !beats(
                side,
                i,
                best,
            ) by {
                assert(any_live(a[i]));
            }
            assert(any_live(a[best]));
        }
        if is_best_level(side, b, best) {
            assert(any_live(a[best]) == any_live(b[best]));
            assert forall|i: int| 0 <= i < a.len() && any_live(#[trigger] a[i]) implies !beats(
                side,
                i,
                best,
            ) by {
                assert(any_live(b[i]));
            }
        }
    }
    if let Some(best) = best_level(side, a) {
        assert(is_best_level(side, a, best));
        lemma_best_level(side, b, best);
    }
}

/// Levels with the same orders trade alike, and have the same orders afterwards.
proof fn lemma_alike_fill(
    a: Seq<Slot>,
    b: Seq<Slot>,
    taker: OrderId,
    price: Price,
    quantity: Quantity,
)
    requires
        live_only(a) == live_only(b),
    ensures
        ({
            let (x, y) = (
                fill_slots(a, 0, taker, price, quantity),
                fill_slots(b, 0, taker, price, quantity),
            );
            &&& x.fills == y.fills
            &&& x.retired == y.retired
            &&& x.remaining == y.remaining
            &&& live_only(x.slots) == live_only(y.slots)
        }),
{
    let x = fill_slots(a, 0, taker, price, quantity);
    let y = fill_slots(b, 0, taker, price, quantity);
    lemma_tombstones_make_no_difference(a, 0, taker, price, quantity);
    lemma_tombstones_make_no_difference(b, 0, taker, price, quantity);
    assert(a.skip(0) =~= a && b.skip(0) =~= b);
    assert(x.slots.skip(0) =~= x.slots && y.slots.skip(0) =~= y.slots);
    let (s, t) = (live_only(x.slots), live_only(y.slots));
    let (o, p) = (orders_of(x.slots, price), orders_of(y.slots, price));
    lemma_live_only(x.slots);
    lemma_live_only(y.slots);
    assert(o == p);
    assert(s.len() == o.len() && t.len() == p.len());
    assert forall|i: int| 0 <= i < s.len() implies s[i] == t[i] by {
        assert(o[i] == p[i]);
        assert(s[i].live && t[i].live);
    }
    assert(s =~= t);
}

/// Sides that are alike trade alike, and are alike afterwards.
proof fn lemma_alike_sweep(
    grid: Grid,
    side: Side,
    a: Seq<Seq<Slot>>,
    b: Seq<Seq<Slot>>,
    at: int,
    limit: int,
    taker: OrderId,
    quantity: Quantity,
)
    requires
        alike_levels(a, b),
    ensures
        ({
            let (x, y) = (
                sweep_levels(grid, side, a, at, limit, taker, quantity),
                sweep_levels(grid, side, b, at, limit, taker, quantity),
            );
            &&& x.fills == y.fills
            &&& x.retired == y.retired
            &&& x.remaining == y.remaining
            &&& alike_levels(x.levels, y.levels)
        }),
    decreases
            (match side {
                Side::Buy => at + 1,
                Side::Sell => a.len() - at,
            }),
{
    if !(quantity.units() <= 0 || !(0 <= at < a.len()) || beats(side, limit, at)) {
        let price = grid.price(at);
        let x = fill_slots(a[at], 0, taker, price, quantity);
        let y = fill_slots(b[at], 0, taker, price, quantity);
        assert(live_only(a[at]) == live_only(b[at]));
        lemma_alike_fill(a[at], b[at], taker, price, quantity);
        let (c, d) = (a.update(at, x.slots), b.update(at, y.slots));
        assert forall|l: int| 0 <= l < c.len() implies live_only(#[trigger] c[l]) == live_only(
            d[l],
        ) by {
            if l != at {
                assert(live_only(a[l]) == live_only(b[l]));
            }
        }
        lemma_alike_sweep(grid, side, c, d, next_level(side, at), limit, taker, x.remaining);
    }
}

/// Books that are alike answer the same order with the same trades, have the same left of it, and
/// are alike afterwards.
pub proof fn lemma_trades_alike(
    a: FixedState,
    b: FixedState,
    id: OrderId,
    side: Side,
    limit: int,
    qty: Quantity,
)
    requires
        alike(a, b),
    ensures
        a.trades(id, side, limit, qty).fills == b.trades(id, side, limit, qty).fills,
        a.trades(id, side, limit, qty).remaining == b.trades(id, side, limit, qty).remaining,
        alike(a.after_trades(id, side, limit, qty), b.after_trades(id, side, limit, qty)),
{
    let facing = opposite(side);
    let (x, y) = (a.side(facing), b.side(facing));
    lemma_alike_best(facing, x, y);
    if let Some(best) = best_level(facing, x) {
        lemma_alike_sweep(a.grid, facing, x, y, best, limit, id, qty);
    }
    assert(a.after_trades(id, side, limit, qty).index.dom() =~= b.after_trades(
        id,
        side,
        limit,
        qty,
    ).index.dom());
}

/// Books that are alike have the same best prices.
pub proof fn lemma_best_price_alike(a: FixedState, b: FixedState, side: Side)
    requires
        alike(a, b),
    ensures
        a.best_price(side) == b.best_price(side),
{
    lemma_alike_best(side, a.side(side), b.side(side));
}

/// Books that are alike, and have their orders in their indices, find the same orders to cancel,
/// and are alike afterwards.
pub proof fn lemma_cancel_alike(a: FixedState, b: FixedState, id: OrderId)
    requires
        alike(a, b),
        a.wf(),
        b.wf(),
        a.well_indexed(),
        b.well_indexed(),
    ensures
        a.index.contains_key(id) <==> b.index.contains_key(id),
        alike(a.after_cancel(id), b.after_cancel(id)),
{
    assert(a.index.dom().contains(id) <==> b.index.dom().contains(id));
    if a.index.contains_key(id) {
        let (s, l, i) = a.index[id];
        let (l, i) = (l as int, i as int);
        let (s2, l2, j) = b.index[id];
        let (l2, j) = (l2 as int, j as int);
        assert(a.has_order(s, l, i));
        assert(b.has_order(s2, l2, j));
        let (x, y) = (a.side(s)[l], b.side(s)[l]);
        assert(live_only(a.side(s)[l]) == live_only(b.side(s)[l]));
        lemma_live_only_tombstone(x, i);
        let k = live_only(x.take(i)).len() as int;
        lemma_live_only(y);
        assert(y.contains(live_only(y)[k]));
        let m = choose|m: int| 0 <= m < y.len() && y[m] == live_only(y)[k];
        assert(b.has_order(s, l, m) && b.id_at(s, l, m) == id);
        b.lemma_one_place(s, l, m, s2, l2, j);
        lemma_live_only_tombstone(y, j);
        let n = live_only(y.take(j)).len() as int;
        assert forall|p: int, q: int|
            0 <= p < q < x.len() && (#[trigger] x[p]).live && (#[trigger] x[q]).live implies x[p].id
            != x[q].id by {
            assert(a.has_order(s, l, p) && a.has_order(s, l, q));
            if x[p].id == x[q].id {
                a.lemma_one_place(s, l, p, s, l, q);
            }
        }
        lemma_live_only_distinct(x);
        assert(live_only(x)[k].id == id && live_only(x)[n].id == id);
        assert(k == n);
        let (c, d) = (a.after_cancel(id), b.after_cancel(id));
        assert forall|t: int| 0 <= t < c.side(s).len() implies live_only(#[trigger] c.side(s)[t])
            == live_only(d.side(s)[t]) by {
            if t != l {
                assert(live_only(a.side(s)[t]) == live_only(b.side(s)[t]));
            }
        }
        assert(c.side(opposite(s)) == a.side(opposite(s)));
        assert(d.side(opposite(s)) == b.side(opposite(s)));
        assert(alike_levels(c.side(s), d.side(s)));
        assert(alike_levels(c.side(opposite(s)), d.side(opposite(s))));
        assert(c.index.dom() =~= d.index.dom());
    }
}

impl FixedState {
    /// A book is alike to what compacting a level makes of it.
    pub proof fn lemma_compaction_alike(self, side: Side, level: int)
        requires
            self.wf(),
            0 <= level < self.side(side).len(),
        ensures
            alike(self, self.after_compaction(side, level)),
            self.after_compaction(side, level).wf(),
    {
        let after = self.after_compaction(side, level);
        let slots = self.side(side)[level];
        let kept = live_only(slots);
        lemma_live_only(slots);
        lemma_all_live(kept);
        assert(levels_wf(self.side(side)));
        assert(slots_wf(slots));
        lemma_live_only_wf(slots);
        assert(levels_fit(self.side(side), self.depth as int));
        assert(slots.len() <= self.depth);
        assert(after.index.dom() =~= self.index.dom());
    }

    /// Compacting a level makes no difference to what comes after: a market order and a limit on
    /// any level trade as they would have without it, and the same orders can be cancelled. What
    /// comes of either is alike again, so this holds however often it is repeated.
    pub proof fn lemma_compaction_does_not_show(
        self,
        side: Side,
        level: int,
        id: OrderId,
        taker: Side,
        limit: int,
        qty: Quantity,
    )
        requires
            self.wf(),
            self.well_indexed(),
            0 <= level < self.side(side).len(),
        ensures
            ({
                let after = self.after_compaction(side, level);
                &&& after.trades(id, taker, limit, qty).fills == self.trades(
                    id,
                    taker,
                    limit,
                    qty,
                ).fills
                &&& after.trades(id, taker, limit, qty).remaining == self.trades(
                    id,
                    taker,
                    limit,
                    qty,
                ).remaining
                &&& alike(
                    self.after_trades(id, taker, limit, qty),
                    after.after_trades(id, taker, limit, qty),
                )
                &&& after.index.contains_key(id) <==> self.index.contains_key(id)
                &&& alike(self.after_cancel(id), after.after_cancel(id))
            }),
    {
        let after = self.after_compaction(side, level);
        self.lemma_compaction_alike(side, level);
        self.lemma_compaction_well_indexed(side, level);
        lemma_trades_alike(self, after, id, taker, limit, qty);
        lemma_cancel_alike(self, after, id);
    }
}

} // verus!
