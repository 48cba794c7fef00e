//! The orders at one price of a book with fixed capacity.
use crate::decimal::Decimal;
use crate::types::{OrderId, Quantity};
use vstd::arithmetic::power2::{lemma_pow2_pos, lemma_pow2_unfold, pow2};
use vstd::prelude::*;

verus! {

/// One place for an order.
pub struct Slot {
    pub id: OrderId,
    pub quantity: Quantity,
    /// Whether an order rests here. A place that was given up stays taken, as a tombstone.
    pub live: bool,
}

/// What a level holds: its places, of which the first `tail` have been taken, first come first.
pub struct RingState {
    pub slots: Seq<Slot>,
    pub tail: nat,
}

/// The places at which an order rests, in their order.
pub open spec fn live_only(slots: Seq<Slot>) -> Seq<Slot>
    decreases slots.len(),
{
    if slots.len() == 0 {
        seq![]
    } else if slots.last().live {
        live_only(slots.drop_last()).push(slots.last())
    } else {
        live_only(slots.drop_last())
    }
}

/// Whether an order rests at one of the places.
pub open spec fn any_live(slots: Seq<Slot>) -> bool {
    exists|i: int| 0 <= i < slots.len() && (#[trigger] slots[i]).live
}

impl RingState {
    /// Every place that has not been taken is free.
    pub open spec fn wf(self, depth: int) -> bool {
        &&& power_of_two(depth)
        &&& self.slots.len() == depth
        &&& self.tail <= depth
        &&& self.tail <= MAX_SLOTS
        &&& forall|i: int| self.tail <= i < depth ==> !(#[trigger] self.slots[i]).live
    }

    /// The places that have been taken.
    pub open spec fn taken(self) -> Seq<Slot> {
        self.slots.take(self.tail as int)
    }

    /// An order can rest at a taken place only.
    pub proof fn lemma_empty(self, depth: int)
        requires
            self.wf(depth),
        ensures
            self.is_empty() <==> !any_live(self.taken()),
    {
        if self.is_empty() {
            assert forall|i: int| 0 <= i < self.taken().len() implies !(
            #[trigger] self.taken()[i]).live by {
                assert(self.taken()[i] == self.slots[i]);
            }
        }
        if !any_live(self.taken()) {
            assert forall|i: int| 0 <= i < self.slots.len() implies !(
            #[trigger] self.slots[i]).live by {
                if i < self.tail {
                    assert(self.taken()[i] == self.slots[i]);
                }
            }
        }
    }

    /// Whether an order rests at place `i`.
    pub open spec fn is_live(self, i: int) -> bool {
        0 <= i < self.slots.len() && self.slots[i].live
    }

    /// Whether no order rests here.
    pub open spec fn is_empty(self) -> bool {
        forall|i: int| 0 <= i < self.slots.len() ==> !(#[trigger] self.slots[i]).live
    }

    /// Whether every place has been taken.
    pub open spec fn is_full(self) -> bool {
        self.tail == self.slots.len()
    }

    /// The level with one more order, at the next place.
    pub open spec fn pushed(self, id: OrderId, quantity: Quantity) -> RingState {
        RingState {
            slots: self.slots.update(self.tail as int, Slot { id, quantity, live: true }),
            tail: self.tail + 1,
        }
    }

    /// The level with another quantity at place `i`.
    pub open spec fn with_quantity(self, i: int, quantity: Quantity) -> RingState {
        RingState { slots: self.slots.update(i, Slot { quantity, ..self.slots[i] }), ..self }
    }

    /// The level with a tombstone at place `i`.
    pub open spec fn cancelled(self, i: int) -> RingState {
        RingState { slots: self.slots.update(i, Slot { live: false, ..self.slots[i] }), ..self }
    }

    /// The level with every place free. The ids and quantities stay where they are.
    pub open spec fn emptied(self) -> RingState {
        RingState {
            slots: Seq::new(self.slots.len(), |i: int| Slot { live: false, ..self.slots[i] }),
            tail: 0,
        }
    }

    /// A level of which no place was ever taken.
    pub open spec fn blank(depth: nat) -> RingState {
        RingState {
            slots: Seq::new(
                depth,
                |i: int| Slot { id: 0, quantity: Decimal::whole(0), live: false },
            ),
            tail: 0,
        }
    }
}

impl RingState {
    /// An order takes the next place, and no other place changes. Orders can be added until as many
    /// have been added as there are places, whatever became of them.
    pub proof fn lemma_push_takes_next_place(self, id: OrderId, quantity: Quantity)
        requires
            self.tail < self.slots.len(),
        ensures
            !self.is_full(),
            ({
                let after = self.pushed(id, quantity);
                let place = self.tail as int;
                &&& after.tail == self.tail + 1
                &&& after.slots.len() == self.slots.len()
                &&& after.slots[place].id == id
                &&& after.slots[place].quantity == quantity
                &&& after.slots[place].live
                &&& forall|i: int|
                    0 <= i < self.slots.len() && i != place ==> #[trigger] after.slots[i]
                        == self.slots[i]
                &&& after.is_full() <==> after.tail == self.slots.len()
                &&& after.taken() == self.taken().push(after.slots[place])
            }),
    {
        let after = self.pushed(id, quantity);
        assert(after.taken() =~= self.taken().push(after.slots[self.tail as int]));
    }

    /// Giving up a place leaves its id and quantity, frees no place and changes no other.
    pub proof fn lemma_cancel_leaves_tombstone(self, place: int)
        requires
            self.is_live(place),
        ensures
            ({
                let after = self.cancelled(place);
                &&& after.tail == self.tail
                &&& after.is_full() <==> self.is_full()
                &&& after.slots.len() == self.slots.len()
                &&& forall|i: int|
                    0 <= i < self.slots.len() ==> {
                        &&& (#[trigger] after.slots[i]).id == self.slots[i].id
                        &&& after.slots[i].quantity == self.slots[i].quantity
                        &&& after.is_live(i) <==> self.is_live(i) && i != place
                    }
            }),
    {
    }

    /// Setting a quantity changes that quantity only.
    pub proof fn lemma_set_quantity(self, place: int, quantity: Quantity)
        requires
            0 <= place < self.slots.len(),
        ensures
            ({
                let after = self.with_quantity(place, quantity);
                &&& after.tail == self.tail
                &&& after.slots.len() == self.slots.len()
                &&& forall|i: int|
                    0 <= i < self.slots.len() ==> {
                        &&& (#[trigger] after.slots[i]).id == self.slots[i].id
                        &&& after.slots[i].live == self.slots[i].live
                        &&& after.slots[i].quantity == if i == place {
                            quantity
                        } else {
                            self.slots[i].quantity
                        }
                    }
            }),
    {
    }

    /// A level that was emptied has all its places free again. So has one that was never used.
    pub proof fn lemma_emptied(self, depth: nat)
        ensures
            self.emptied().is_empty(),
            self.emptied().tail == 0,
            self.emptied().slots.len() == self.slots.len(),
            forall|i: int|
                0 <= i < self.slots.len() ==> (#[trigger] self.emptied().slots[i]).id
                    == self.slots[i].id && self.emptied().slots[i].quantity
                    == self.slots[i].quantity,
            RingState::blank(depth).is_empty(),
            RingState::blank(depth).tail == 0,
            RingState::blank(depth).slots.len() == depth,
            forall|i: int|
                0 <= i < depth ==> (#[trigger] RingState::blank(depth).slots[i]).id == 0
                    && RingState::blank(depth).slots[i].quantity.units() == 0,
    {
        crate::decimal::lemma_of_signed(0, 0);
        assert(Decimal::whole(0).units() == 0);
    }

    /// A level is empty exactly where no order rests at any place of it.
    pub proof fn lemma_empty_where_none_rests(self)
        ensures
            self.is_empty() <==> forall|i: int| !#[trigger] self.is_live(i),
            forall|i: int| #[trigger] self.is_live(i) ==> 0 <= i < self.slots.len(),
    {
        if forall|i: int| !#[trigger] self.is_live(i) {
            assert forall|i: int| 0 <= i < self.slots.len() implies !(
            #[trigger] self.slots[i]).live by {
                assert(!self.is_live(i));
            }
        }
    }
}

/// How many places of a level can be named: a place is a `u16`.
pub const MAX_SLOTS: u32 = 0x1_0000;

/// Whether bit `b` of a word is set.
spec fn has_bit(word: u64, b: u64) -> bool {
    word & (1u64 << b) != 0
}

/// Whether bit `i` of a bitmap is set.
spec fn bitmap_bit(bitmap: Seq<u64>, i: int) -> bool {
    has_bit(bitmap[i / 64], (i % 64) as u64)
}

/// How many words a bitmap of `depth` bits has.
pub open spec fn words(depth: int) -> int {
    (depth + 63) / 64
}

/// The orders at one price, with room for `DEPTH` of them.
///
/// An order takes the next free place, and a cancelled one leaves a tombstone: its place is not
/// used again until the level is compacted. A bitmap says which places hold an order.
/// `DEPTH` must be a power of two.
pub struct RingLevel<const DEPTH: usize> {
    qtys: [Quantity; DEPTH],
    order_ids: [OrderId; DEPTH],
    bitmap: Vec<u64>,
    head: u32,
    tail: u32,
    live_count: u32,
}

impl<const DEPTH: usize> View for RingLevel<DEPTH> {
    type V = RingState;

    closed spec fn view(&self) -> RingState {
        RingState {
            slots: Seq::new(
                DEPTH as nat,
                |i: int|
                    Slot {
                        id: self.order_ids@[i],
                        quantity: self.qtys@[i],
                        live: bitmap_bit(self.bitmap@, i),
                    },
            ),
            tail: self.tail as nat,
        }
    }
}

impl<const DEPTH: usize> RingLevel<DEPTH> {
    /// The bitmap has a bit for each place, set where an order rests, and `live_count` counts
    /// those.
    pub closed spec fn wf(self) -> bool {
        &&& self@.wf(DEPTH as int)
        &&& self.head == 0
        &&& self.bitmap@.len() == words(DEPTH as int)
        &&& forall|i: int|
            DEPTH <= i < 64 * words(DEPTH as int) ==> !#[trigger] bitmap_bit(self.bitmap@, i)
        &&& self.live_count == live_only(self@.slots).len()
    }

    /// What every level satisfies.
    pub proof fn lemma_wf(self)
        requires
            self.wf(),
        ensures
            self@.wf(DEPTH as int),
    {
    }

    /// A level of which no place was ever taken.
    pub fn new() -> (ring: Self)
        requires
            power_of_two(DEPTH as int),
        ensures
            ring.wf(),
            ring@ == RingState::blank(DEPTH as nat),
    {
        RingLevel::blank()
    }

    fn blank() -> (ring: Self)
        ensures
            power_of_two(DEPTH as int) ==> ring.wf(),
            ring@ == RingState::blank(DEPTH as nat),
    {
        let whole_words: usize = DEPTH / 64;
        let word_count: usize = if DEPTH % 64 == 0 {
            whole_words
        } else {
            whole_words + 1
        };
        let ring = RingLevel {
            qtys: [Decimal::zero();DEPTH],
            order_ids: [0;DEPTH],
            bitmap: vec![0u64;word_count],
            head: 0,
            tail: 0,
            live_count: 0,
        };
        proof {
            lemma_no_bits(ring.bitmap@);
            assert(ring@.slots =~= RingState::blank(DEPTH as nat).slots);
            lemma_live_count_zero(ring@.slots);
        }
        ring
    }

    /// The place that a counter stands for.
    pub fn slot(counter: u32) -> (r: usize)
        requires
            DEPTH > 0,
        ensures
            r == (counter as usize) & ((DEPTH - 1) as usize),
            power_of_two(DEPTH as int) ==> r == counter as int % DEPTH as int,
    {
        proof {
            if power_of_two(DEPTH as int) {
                lemma_mask_is_remainder(counter as u64, DEPTH as u64);
            }
        }
        counter as usize & (DEPTH - 1)
    }

    /// Whether no order rests here.
    pub fn is_empty(&self) -> (r: bool)
        requires
            self.wf(),
        ensures
            r == self@.is_empty(),
    {
        proof {
            lemma_live_count_zero(self@.slots);
        }
        self.live_count == 0
    }

    /// Whether every place has been taken.
    pub fn is_full(&self) -> (r: bool)
        requires
            self.wf(),
        ensures
            r == self@.is_full(),
    {
        (self.tail - self.head) as usize == DEPTH
    }

    /// The first place that was taken.
    pub fn head(&self) -> (r: u32)
        requires
            self.wf(),
        ensures
            r == 0,
    {
        self.head
    }

    /// The next place to be taken.
    pub fn tail(&self) -> (r: u32)
        requires
            self.wf(),
        ensures
            r == self@.tail,
    {
        self.tail
    }

    /// The id that place `slot` holds.
    pub fn order_id(&self, slot: usize) -> (r: OrderId)
        requires
            slot < DEPTH,
        ensures
            r == self@.slots[slot as int].id,
    {
        self.order_ids[slot]
    }

    /// The quantity that place `slot` holds.
    pub fn qty(&self, slot: usize) -> (r: Quantity)
        requires
            slot < DEPTH,
        ensures
            r == self@.slots[slot as int].quantity,
            r.valid(),
    {
        let r = self.qtys[slot];
        proof {
            use_type_invariant(&r);
        }
        r
    }

    /// Whether an order rests at place `slot`. The bitmap may have bits past the last place.
    pub fn is_live(&self, slot: usize) -> (r: bool)
        requires
            self.wf(),
            slot < 64 * words(DEPTH as int),
        ensures
            r == self@.is_live(slot as int),
    {
        proof {
            lemma_split(slot);
            assert(slot < DEPTH || !bitmap_bit(self.bitmap@, slot as int));
        }
        self.bitmap[slot >> 6] & (1u64 << (slot & 63)) != 0
    }

    fn bitmap_set(&mut self, slot: usize)
        requires
            slot < DEPTH,
            old(self).bitmap@.len() == words(DEPTH as int),
        ensures
            final(self).qtys == old(self).qtys,
            final(self).order_ids == old(self).order_ids,
            final(self).head == old(self).head,
            final(self).tail == old(self).tail,
            final(self).live_count == old(self).live_count,
            final(self).bitmap@.len() == old(self).bitmap@.len(),
            forall|i: int|
                0 <= i < 64 * words(DEPTH as int) ==> #[trigger] bitmap_bit(final(self).bitmap@, i)
                    == (i == slot || bitmap_bit(old(self).bitmap@, i)),
    {
        proof {
            lemma_split(slot);
        }
        let word: u64 = self.bitmap[slot >> 6];
        self.bitmap[slot >> 6] = word | (1u64 << (slot & 63));
        proof {
            assert forall|i: int| 0 <= i < 64 * words(DEPTH as int) implies #[trigger] bitmap_bit(
                self.bitmap@,
                i,
            ) == (i == slot || bitmap_bit(old(self).bitmap@, i)) by {
                lemma_word_set(word, (slot % 64) as u64, (i % 64) as u64);
            }
        }
    }

    fn bitmap_clear(&mut self, slot: usize)
        requires
            slot < DEPTH,
            old(self).bitmap@.len() == words(DEPTH as int),
        ensures
            final(self).qtys == old(self).qtys,
            final(self).order_ids == old(self).order_ids,
            final(self).head == old(self).head,
            final(self).tail == old(self).tail,
            final(self).live_count == old(self).live_count,
            final(self).bitmap@.len() == old(self).bitmap@.len(),
            forall|i: int|
                0 <= i < 64 * words(DEPTH as int) ==> #[trigger] bitmap_bit(final(self).bitmap@, i)
                    == (i != slot && bitmap_bit(old(self).bitmap@, i)),
    {
        proof {
            lemma_split(slot);
        }
        let word: u64 = self.bitmap[slot >> 6];
        self.bitmap[slot >> 6] = word & !(1u64 << (slot & 63));
        proof {
            assert forall|i: int| 0 <= i < 64 * words(DEPTH as int) implies #[trigger] bitmap_bit(
                self.bitmap@,
                i,
            ) == (i != slot && bitmap_bit(old(self).bitmap@, i)) by {
                lemma_word_clear(word, (slot % 64) as u64, (i % 64) as u64);
            }
        }
    }

    /// Puts an order at the next place, which it returns; or `None`, if every place is taken.
    pub fn push(&mut self, order_id: OrderId, qty: Quantity) -> (r: Option<u16>)
        requires
            old(self).wf(),
            DEPTH <= MAX_SLOTS || old(self)@.tail < MAX_SLOTS,
        ensures
            final(self).wf(),
            match r {
                Some(slot) => !old(self)@.is_full() && slot == old(self)@.tail && final(self)@
                    == old(self)@.pushed(order_id, qty),
                None => old(self)@.is_full() && final(self)@ == old(self)@,
            },
    {
        if self.is_full() {
            return None;
        }
        proof {
            lemma_live_count_bound(self@.slots, self.tail as int);
            vstd::arithmetic::div_mod::lemma_small_mod(self.tail as nat, DEPTH as nat);
            lemma_live_count_update(
                self@.slots,
                self.tail as int,
                Slot { id: order_id, quantity: qty, live: true },
            );
        }
        let s: u16 = Self::slot(self.tail) as u16;
        self.order_ids[s as usize] = order_id;
        self.qtys[s as usize] = qty;
        self.bitmap_set(s as usize);
        self.tail = self.tail + 1;
        self.live_count = self.live_count + 1;
        assert(self@.slots =~= old(self)@.pushed(order_id, qty).slots);
        Some(s)
    }

    /// Sets the quantity at place `slot`.
    pub fn set_qty(&mut self, slot: usize, qty: Quantity)
        requires
            slot < DEPTH,
        ensures
            final(self)@ == old(self)@.with_quantity(slot as int, qty),
            old(self).wf() ==> final(self).wf(),
    {
        self.qtys[slot] = qty;
        proof {
            assert(self@.slots =~= old(self)@.with_quantity(slot as int, qty).slots);
            lemma_live_count_update(
                old(self)@.slots,
                slot as int,
                Slot { quantity: qty, ..old(self)@.slots[slot as int] },
            );
        }
    }

    /// Gives up place `slot`, leaving a tombstone.
    pub fn cancel(&mut self, slot: u16)
        requires
            old(self).wf(),
            old(self)@.is_live(slot as int),
        ensures
            final(self).wf(),
            final(self)@ == old(self)@.cancelled(slot as int),
    {
        proof {
            lemma_live_count_update(
                self@.slots,
                slot as int,
                Slot { live: false, ..self@.slots[slot as int] },
            );
        }
        self.bitmap_clear(slot as usize);
        self.live_count = self.live_count - 1;
        assert(self@.slots =~= old(self)@.cancelled(slot as int).slots);
    }

    /// Frees every place.
    pub fn reset(&mut self)
        requires
            old(self).wf(),
        ensures
            final(self).wf(),
            final(self)@ == old(self)@.emptied(),
    {
        let mut i: usize = 0;
        while i < self.bitmap.len()
            invariant
                i <= self.bitmap@.len(),
                self.bitmap@.len() == old(self).bitmap@.len(),
                self.qtys == old(self).qtys,
                self.order_ids == old(self).order_ids,
                forall|j: int| 0 <= j < i ==> self.bitmap@[j] == 0,
            decreases self.bitmap@.len() - i,
        {
            self.bitmap[i] = 0;
            i = i + 1;
        }
        self.head = 0;
        self.tail = 0;
        self.live_count = 0;
        proof {
            lemma_no_bits(self.bitmap@);
            assert(self@.slots =~= old(self)@.emptied().slots);
            lemma_live_count_zero(self@.slots);
        }
    }
}

impl<const DEPTH: usize> Default for RingLevel<DEPTH> {
    fn default() -> (ring: Self)
        ensures
            power_of_two(DEPTH as int) ==> ring.wf(),
            ring@ == RingState::blank(DEPTH as nat),
    {
        RingLevel::blank()
    }
}

/// Whether `n` is a power of two.
pub open spec fn power_of_two(n: int) -> bool {
    exists|k: nat| n == #[trigger] pow2(k)
}

/// Whether `n` is a power of two.
pub fn is_power_of_two(n: usize) -> (r: bool)
    ensures
        r == power_of_two(n as int),
{
    proof {
        if n > 0 {
            lemma_power_of_two_bits(n);
        } else if power_of_two(0) {
            lemma_pow2_pos(choose|k: nat| 0int == #[trigger] pow2(k));
        }
    }
    n > 0 && (n & (n - 1)) == 0
}

/// A number is a power of two exactly where taking one from it turns all its bits.
proof fn lemma_power_of_two_bits(n: usize)
    requires
        n > 0,
    ensures
        power_of_two(n as int) <==> n & ((n - 1) as usize) == 0,
    decreases n,
{
    if n == 1 {
        assert(1usize & 0usize == 0) by (bit_vector);
        vstd::arithmetic::power2::lemma2_to64();
        assert(pow2(0) == 1);
    } else {
        let m: usize = n / 2;
        let below: usize = (n - 1) as usize;
        if n % 2 == 1 {
            assert(n & below != 0) by (bit_vector)
                requires
                    n % 2 == 1,
                    n > 1,
                    below == n - 1,
            ;
            if power_of_two(n as int) {
                let k = choose|k: nat| n as int == #[trigger] pow2(k);
                if k == 0 {
                    vstd::arithmetic::power2::lemma2_to64();
                } else {
                    lemma_pow2_unfold(k);
                }
                assert(false);
            }
        } else {
            let half_below: usize = (m - 1) as usize;
            assert((n & below == 0) == (m & half_below == 0)) by (bit_vector)
                requires
                    n % 2 == 0,
                    n > 1,
                    below == n - 1,
                    m == n / 2,
                    half_below == m - 1,
            ;
            lemma_power_of_two_bits(m);
            if power_of_two(n as int) {
                let k = choose|k: nat| n as int == #[trigger] pow2(k);
                if k == 0 {
                    vstd::arithmetic::power2::lemma2_to64();
                } else {
                    lemma_pow2_unfold(k);
                    assert(m == pow2((k - 1) as nat));
                }
            }
            if power_of_two(m as int) {
                let k = choose|k: nat| m as int == #[trigger] pow2(k);
                lemma_pow2_unfold(k + 1);
                assert(n == pow2(k + 1));
            }
        }
    }
}

/// A bitmap of zeros has no bit set.
proof fn lemma_no_bits(bitmap: Seq<u64>)
    requires
        forall|j: int| 0 <= j < bitmap.len() ==> bitmap[j] == 0,
    ensures
        forall|i: int| 0 <= i < 64 * bitmap.len() ==> !#[trigger] bitmap_bit(bitmap, i),
{
    assert forall|i: int| 0 <= i < 64 * bitmap.len() implies !#[trigger] bitmap_bit(bitmap, i) by {
        let b = (i % 64) as u64;
        assert(bitmap[i / 64] == 0);
        assert(0u64 & (1u64 << b) == 0) by (bit_vector);
    }
}

/// Below a power of two, the bits that a mask keeps are the remainder.
proof fn lemma_mask_is_remainder(x: u64, n: u64)
    requires
        power_of_two(n as int),
    ensures
        x & ((n - 1) as u64) == x % n,
{
    let k = choose|k: nat| n as int == #[trigger] pow2(k);
    if k >= 64 {
        vstd::arithmetic::power2::lemma_pow2_strictly_increases(63, k);
        vstd::arithmetic::power2::lemma2_to64();
        vstd::arithmetic::power2::lemma2_to64_rest();
        vstd::arithmetic::power2::lemma_pow2_adds(64, (k - 64) as nat);
        lemma_pow2_pos((k - 64) as nat);
        assert(pow2(64) * pow2((k - 64) as nat) >= pow2(64)) by (nonlinear_arith)
            requires
                pow2((k - 64) as nat) >= 1,
                pow2(64) >= 0,
        ;
    }
    lemma_pow2_pos(k);
    vstd::bits::lemma_u64_low_bits_mask_is_mod(x, k);
}

proof fn lemma_word_set(word: u64, b: u64, c: u64)
    requires
        b < 64,
        c < 64,
    ensures
        has_bit(word | (1u64 << b), c) == (c == b || has_bit(word, c)),
{
    assert(((word | (1u64 << b)) & (1u64 << c) != 0) == (c == b || word & (1u64 << c) != 0))
        by (bit_vector)
        requires
            b < 64,
            c < 64,
    ;
}

proof fn lemma_word_clear(word: u64, b: u64, c: u64)
    requires
        b < 64,
        c < 64,
    ensures
        has_bit(word & !(1u64 << b), c) == (c != b && has_bit(word, c)),
{
    assert(((word & !(1u64 << b)) & (1u64 << c) != 0) == (c != b && word & (1u64 << c) != 0))
        by (bit_vector)
        requires
            b < 64,
            c < 64,
    ;
}

/// Where the bit of a place stands.
proof fn lemma_split(slot: usize)
    ensures
        slot >> 6usize == slot / 64,
        slot & 63 == slot % 64,
        (slot & 63) < 64,
{
    assert(slot >> 6usize == slot / 64) by (bit_vector);
    assert(slot & 63 == slot % 64) by (bit_vector);
}

/// What changing one place does to the orders that rest.
proof fn lemma_live_count_update(slots: Seq<Slot>, i: int, slot: Slot)
    requires
        0 <= i < slots.len(),
    ensures
        live_only(slots.update(i, slot)).len() == live_only(slots).len() - (if slots[i].live {
            1int
        } else {
            0
        }) + (if slot.live {
            1int
        } else {
            0
        }),
        slots[i].live ==> live_only(slots).len() > 0,
    decreases slots.len(),
{
    let changed = slots.update(i, slot);
    if i == slots.len() - 1 {
        assert(changed.drop_last() =~= slots.drop_last());
    } else {
        assert(changed.drop_last() =~= slots.drop_last().update(i, slot));
        lemma_live_count_update(slots.drop_last(), i, slot);
    }
}

/// No more orders rest than there are places taken.
proof fn lemma_live_count_bound(slots: Seq<Slot>, tail: int)
    requires
        0 <= tail <= slots.len(),
        forall|i: int| tail <= i < slots.len() ==> !(#[trigger] slots[i]).live,
    ensures
        live_only(slots).len() <= tail,
    decreases slots.len(),
{
    if slots.len() > 0 {
        if tail == slots.len() {
            lemma_live_count_bound(slots.drop_last(), tail - 1);
        } else {
            lemma_live_count_bound(slots.drop_last(), tail);
        }
    }
}

/// The count tells whether an order rests.
proof fn lemma_live_count_zero(slots: Seq<Slot>)
    ensures
        live_only(slots).len() == 0 <==> (forall|i: int|
            0 <= i < slots.len() ==> !(#[trigger] slots[i]).live),
    decreases slots.len(),
{
    if slots.len() > 0 {
        let rest = slots.drop_last();
        lemma_live_count_zero(rest);
        if live_only(slots).len() == 0 {
            assert forall|i: int| 0 <= i < slots.len() implies !(#[trigger] slots[i]).live by {
                if i < rest.len() {
                    assert(!rest[i].live);
                }
            }
        } else {
            assert(slots.last().live ==> slots[slots.len() - 1].live);
            if live_only(rest).len() != 0 {
                let i = choose|i: int| 0 <= i < rest.len() && rest[i].live;
                assert(slots[i].live);
            }
        }
    }
}

/// Leaving out the tombstones leaves out no order.
pub proof fn lemma_live_only(slots: Seq<Slot>)
    ensures
        live_only(slots).len() <= slots.len(),
        any_live(live_only(slots)) == any_live(slots),
        forall|i: int|
            0 <= i < live_only(slots).len() ==> (#[trigger] live_only(slots)[i]).live
                && slots.contains(live_only(slots)[i]),
    decreases slots.len(),
{
    if slots.len() > 0 {
        let shorter = slots.drop_last();
        lemma_live_only(shorter);
        assert forall|i: int| 0 <= i < live_only(slots).len() implies (#[trigger] live_only(
            slots,
        )[i]).live && slots.contains(live_only(slots)[i]) by {
            if i < live_only(shorter).len() {
                let k = choose|k: int|
                    0 <= k < shorter.len() && shorter[k] == live_only(shorter)[i];
                assert(slots[k] == live_only(slots)[i]);
            } else {
                assert(slots[slots.len() - 1] == live_only(slots)[i]);
            }
        }
        if any_live(slots) {
            let i = choose|i: int| 0 <= i < slots.len() && (#[trigger] slots[i]).live;
            if i < shorter.len() {
                assert(shorter[i].live);
                let j = choose|j: int|
                    0 <= j < live_only(shorter).len() && (#[trigger] live_only(shorter)[j]).live;
                assert(live_only(slots)[j].live);
            } else {
                assert(live_only(slots)[live_only(slots).len() - 1].live);
            }
        }
        if any_live(live_only(slots)) {
            let i = choose|i: int|
                0 <= i < live_only(slots).len() && (#[trigger] live_only(slots)[i]).live;
            assert(slots.contains(live_only(slots)[i]));
        }
    }
}

} // verus!
