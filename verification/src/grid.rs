//! The prices of a book with fixed capacity: a first price, and a step from each to the next.
use crate::decimal::{
    common_places, difference, difference_fits, divides_exactly, in_range,
    lemma_difference_divisible, lemma_difference_exact, lemma_of_signed, lemma_one_is_pow10,
    lemma_product_exact, lemma_sum_exact, lemma_units_bound, lemma_units_of_zero, lemma_written,
    magnitude, pow10, product, product_fits, quotient_units, representable, representable_with,
    rounded_sum, sum, sum_fits, Decimal, MAX_COEFFICIENT, UNITS_PER_ONE,
};
use crate::types::Price;
use vstd::prelude::*;

verus! {

/// The prices `base`, `base + tick`, `base + 2 * tick` and so on, `levels` of them.
pub struct Grid {
    pub base: Price,
    pub tick: Price,
    pub levels: nat,
}

impl Grid {
    /// The price of level `i`.
    pub open spec fn price(self, i: int) -> Price {
        sum(self.base, product(self.tick, Decimal::whole(i)))
    }

    /// Whether the price of level `i` can be computed: no step of it overflows.
    pub open spec fn priced(self, i: int) -> bool {
        &&& in_range(
            self.tick.units() * Decimal::whole(i).units(),
            UNITS_PER_ONE * UNITS_PER_ONE,
        )
        &&& in_range(
            self.base.units() + product(self.tick, Decimal::whole(i)).units(),
            UNITS_PER_ONE as int,
        )
    }

    /// What a price is above the first one.
    pub open spec fn offset(self, price: Price) -> Price {
        difference(price, self.base)
    }

    /// What a price is above the first one in ticks, counted in units of `10^-28`.
    pub open spec fn ticks(self, price: Price) -> int {
        quotient_units(self.offset(price), self.tick)
    }

    /// Whether the level of a price can be computed: no step of it overflows, and there is no
    /// division by zero.
    pub open spec fn placeable(self, price: Price) -> bool {
        &&& in_range(price.units() - self.base.units(), UNITS_PER_ONE as int)
        &&& self.offset(price).negative() || {
            &&& self.tick.units() != 0
            &&& in_range(self.offset(price).units(), magnitude(self.tick.units()) as int)
        }
    }

    /// The level of a price: a whole number of ticks above the first price.
    pub open spec fn place(self, price: Price) -> Option<int> {
        let ticks = self.ticks(price);
        let level = ticks / (UNITS_PER_ONE as int);
        if self.offset(price).negative() || ticks < 0 || ticks % (UNITS_PER_ONE as int) != 0
            || level >= self.levels {
            None
        } else {
            Some(level)
        }
    }

    /// Whether a price is no further from level `i` than one part in two thousand million of a
    /// tick.
    pub open spec fn near(self, price: Price, i: int) -> bool {
        2_000_000_000 * magnitude(self.offset(price).units() - i * self.tick.units()) <= magnitude(
            self.tick.units(),
        )
    }

    /// Whether the price of level `i` is exact: no step of it rounds.
    pub open spec fn exact(self, i: int) -> bool {
        &&& self.base.valid()
        &&& self.tick.valid()
        &&& magnitude(i) <= MAX_COEFFICIENT
        &&& product_fits(self.tick, Decimal::whole(i))
        &&& sum_fits(self.base, product(self.tick, Decimal::whole(i)))
    }

    /// Where nothing rounds, the price of level `i` can be computed and is `i` ticks above the
    /// first price.
    pub proof fn lemma_exact_price(self, i: int)
        requires
            self.exact(i),
        ensures
            self.priced(i),
            self.price(i).valid(),
            self.price(i).units() == self.base.units() + i * self.tick.units(),
    {
        let one = UNITS_PER_ONE as int;
        let n = Decimal::whole(i);
        let steps = product(self.tick, n);
        let t = self.tick.units();
        lemma_of_signed(i, 0);
        lemma_one_is_pow10();
        assert(n.units() == i * one);
        lemma_product_exact(self.tick, n);
        assert(t * (i * one) == (i * t) * one) by (nonlinear_arith);
        assert(steps.units() == i * t) by (nonlinear_arith)
            requires
                steps.units() * one == (i * t) * one,
                one > 0,
        ;
        lemma_units_bound(steps);
        let m = magnitude(steps.units()) as int;
        assert(magnitude(steps.units() * one) == m * one) by (nonlinear_arith)
            requires
                one > 0,
                m == magnitude(steps.units()),
        ;
        assert(2 * (m * one) < (2 * MAX_COEFFICIENT + 1) * (one * one)) by (nonlinear_arith)
            requires
                0 <= m <= MAX_COEFFICIENT * one,
                one > 0,
        ;
        lemma_sum_exact(self.base, steps);
        lemma_units_bound(sum(self.base, steps));
    }

    /// Where nothing rounds, a higher level has a higher price.
    pub proof fn lemma_prices_rise(self, i: int, j: int)
        requires
            self.exact(i),
            self.exact(j),
            self.tick.units() > 0,
            i < j,
        ensures
            self.price(i).units() < self.price(j).units(),
    {
        self.lemma_exact_price(i);
        self.lemma_exact_price(j);
        let t = self.tick.units();
        assert(i * t < j * t) by (nonlinear_arith)
            requires
                t > 0,
                i < j,
        ;
    }

    /// A price that is a whole number of ticks above the first one is found at that level, where
    /// the first price is not a zero with a minus sign.
    pub proof fn lemma_on_grid(self, price: Price, i: int)
        requires
            self.base.valid(),
            self.tick.valid(),
            price.valid(),
            self.tick.units() > 0,
            self.base.units() != 0 || !self.base.negative(),
            difference_fits(price, self.base),
            0 <= i < self.levels,
            self.levels <= usize::MAX,
            price.units() == self.base.units() + i * self.tick.units(),
        ensures
            self.placeable(price),
            self.place(price) == Some(i),
    {
        let one = UNITS_PER_ONE as int;
        let t = self.tick.units();
        let offset = self.offset(price);
        lemma_difference_exact(price, self.base);
        assert(offset.units() == i * t);
        lemma_units_bound(offset);
        lemma_units_of_zero(offset);
        lemma_units_of_zero(self.base);
        lemma_units_of_zero(price);
        assert(i * t >= 0) by (nonlinear_arith)
            requires
                i >= 0,
                t > 0,
        ;
        assert(!offset.negative()) by {
            if price.coefficient() != 0 && self.base.coefficient() != 0 {
                let places = common_places(price, self.base);
                lemma_difference_divisible(price, self.base, places);
                lemma_written(price.units() - self.base.units(), places);
            }
        }
        assert(2 * (i * t) < (2 * MAX_COEFFICIENT + 1) * t) by (nonlinear_arith)
            requires
                0 <= i <= usize::MAX,
                t > 0,
        ;
        assert((i * t) * one == (i * one) * t) by (nonlinear_arith);
        vstd::arithmetic::div_mod::lemma_fundamental_div_mod_converse((i * t) * one, t, i * one, 0);
        lemma_one_is_pow10();
        vstd::arithmetic::div_mod::lemma_fundamental_div_mod_converse(i * one, one, i, 0);
        assert(magnitude(i * one) <= MAX_COEFFICIENT * one) by (nonlinear_arith)
            requires
                0 <= i <= usize::MAX,
                one > 0,
        ;
        assert(pow10(28) == one);
        assert(representable_with(i * one, 0));
        assert(representable(i * one));
        assert(self.ticks(price) == i * one);
    }

    /// The price of a level is found at that level, where nothing rounds.
    pub proof fn lemma_place_of_price(self, i: int)
        requires
            self.exact(i),
            self.tick.units() > 0,
            self.base.units() != 0 || !self.base.negative(),
            difference_fits(self.price(i), self.base),
            0 <= i < self.levels,
            self.levels <= usize::MAX,
        ensures
            self.placeable(self.price(i)),
            self.place(self.price(i)) == Some(i),
    {
        self.lemma_exact_price(i);
        self.lemma_on_grid(self.price(i), i);
    }

    /// A price that is found at a level has the value of the price of that level, where nothing
    /// rounds.
    pub proof fn lemma_found_price(self, price: Price, i: int)
        requires
            price.valid(),
            self.exact(i),
            self.tick.units() != 0,
            difference_fits(price, self.base),
            divides_exactly(self.offset(price), self.tick),
            self.place(price) == Some(i),
        ensures
            0 <= i < self.levels,
            price.units() == self.price(i).units(),
    {
        let one = UNITS_PER_ONE as int;
        let (o, t) = (self.offset(price).units(), self.tick.units());
        let ticks = self.ticks(price);
        lemma_difference_exact(price, self.base);
        self.lemma_exact_price(i);
        vstd::arithmetic::div_mod::lemma_fundamental_div_mod(o * one, t);
        vstd::arithmetic::div_mod::lemma_fundamental_div_mod(ticks, one);
        vstd::arithmetic::div_mod::lemma_div_pos_is_pos(ticks, one);
        assert(o == i * t) by (nonlinear_arith)
            requires
                o * one == t * ticks,
                ticks == one * i,
                one > 0,
        ;
    }

    /// Finding the level of a price undoes pricing the level, where nothing rounds: a price is
    /// found at level `i` exactly where it has the value of the price of level `i`, and every
    /// other price is found nowhere. The first price is that of level zero.
    pub proof fn lemma_place_undoes_price(self, price: Price)
        requires
            price.valid(),
            self.base.valid(),
            self.tick.units() > 0,
            self.base.units() != 0 || !self.base.negative(),
            self.levels <= usize::MAX,
            forall|i: int| 0 <= i < self.levels ==> #[trigger] self.exact(i),
            difference_fits(price, self.base),
            divides_exactly(self.offset(price), self.tick),
        ensures
            forall|i: int|
                self.place(price) == Some(i) <==> 0 <= i < self.levels && price.units()
                    == #[trigger] self.price(i).units(),
            self.place(price) is None <==> forall|i: int|
                0 <= i < self.levels ==> price.units() != #[trigger] self.price(i).units(),
            self.levels > 0 ==> self.price(0).units() == self.base.units(),
    {
        assert forall|i: int|
            self.place(price) == Some(i) <==> 0 <= i < self.levels && price.units()
                == #[trigger] self.price(i).units() by {
            if 0 <= i < self.levels {
                assert(self.exact(i));
                self.lemma_exact_price(i);
                if price.units() == self.price(i).units() {
                    self.lemma_on_grid(price, i);
                }
            }
            if self.place(price) == Some(i) {
                let ticks = self.ticks(price);
                vstd::arithmetic::div_mod::lemma_div_pos_is_pos(ticks, UNITS_PER_ONE as int);
                assert(self.exact(i));
                self.lemma_found_price(price, i);
            }
        }
        if let Some(i) = self.place(price) {
            assert(price.units() == self.price(i).units());
        }
        if self.levels > 0 {
            assert(self.exact(0));
            self.lemma_exact_price(0);
        }
    }

    /// A price is found at level `i` exactly where it is not below the first price, its distance from
    /// that is `i` ticks as far as division tells, and there is such a level. Every other price is
    /// found nowhere.
    pub proof fn lemma_place_counts_ticks(self, price: Price, i: int)
        ensures
            self.place(price) == Some(i) <==> {
                &&& !difference(price, self.base).negative()
                &&& 0 <= i < self.levels
                &&& quotient_units(difference(price, self.base), self.tick) == i * UNITS_PER_ONE
            },
            self.place(price) is None <==> forall|l: int|
                0 <= l < self.levels ==> difference(price, self.base).negative()
                    || quotient_units(difference(price, self.base), self.tick) != #[trigger] (l
                    * UNITS_PER_ONE),
    {
        let one = UNITS_PER_ONE as int;
        let ticks = quotient_units(difference(price, self.base), self.tick);
        vstd::arithmetic::div_mod::lemma_fundamental_div_mod(ticks, one);
        vstd::arithmetic::div_mod::lemma_div_pos_is_pos(0, one);
        assert forall|l: int| ticks == #[trigger] (l * UNITS_PER_ONE) implies ticks / one == l
            && ticks % one == 0 && (ticks >= 0 <==> l >= 0) by {
            vstd::arithmetic::div_mod::lemma_fundamental_div_mod_converse(ticks, one, l, 0);
        }
        let level = ticks / one;
        if ticks >= 0 && ticks % one == 0 {
            vstd::arithmetic::div_mod::lemma_div_pos_is_pos(ticks, one);
            assert(ticks == level * UNITS_PER_ONE);
        }
        assert(i * UNITS_PER_ONE == i * one);
    }

    /// Where the last step to the price of a level does not round, that price is the first one and
    /// so many ticks, however these were rounded. Otherwise it is the sum of the two, rounded.
    pub proof fn lemma_price_adds_ticks(self, i: int)
        requires
            self.base.valid(),
            product(self.tick, Decimal::whole(i)).valid(),
        ensures
            ({
                let steps = product(self.tick, Decimal::whole(i));
                &&& sum_fits(self.base, steps) ==> self.price(i).units() == self.base.units()
                    + steps.units()
                &&& !sum_fits(self.base, steps) ==> self.price(i) == rounded_sum(self.base, steps)
            }),
    {
        let steps = product(self.tick, Decimal::whole(i));
        if sum_fits(self.base, steps) {
            lemma_sum_exact(self.base, steps);
        }
    }

    /// A price that is near to a level is the price of that level, where a tick has fewer than two
    /// thousand million steps of the precision in which the prices are written.
    pub proof fn lemma_near_is_on_grid(self, price: Price, i: int, precision: int)
        requires
            self.near(price, i),
            precision > 0,
            self.offset(price).units() % precision == 0,
            self.tick.units() % precision == 0,
            magnitude(self.tick.units()) < 2_000_000_000 * precision,
        ensures
            self.offset(price).units() == i * self.tick.units(),
    {
        let (o, t) = (self.offset(price).units(), self.tick.units());
        let (a, b) = (o / precision, t / precision);
        vstd::arithmetic::div_mod::lemma_fundamental_div_mod(o, precision);
        vstd::arithmetic::div_mod::lemma_fundamental_div_mod(t, precision);
        let steps = a - i * b;
        assert(o - i * t == steps * precision) by (nonlinear_arith)
            requires
                o == precision * a,
                t == precision * b,
                steps == a - i * b,
        ;
        if steps != 0 {
            assert(magnitude(steps * precision) >= precision) by (nonlinear_arith)
                requires
                    steps != 0,
                    precision > 0,
            ;
        }
        assert(0 * precision == 0);
    }
}

/// A quotient that is rounded to a whole number is near to it.
pub proof fn lemma_near(offset: int, tick: int, level: int)
    requires
        0 <= level < usize::MAX,
        2 * magnitude(level * UNITS_PER_ONE * tick - offset * UNITS_PER_ONE) <= pow10(28)
            * magnitude(tick),
        magnitude(offset) * pow10(9) <= MAX_COEFFICIENT * magnitude(tick) ==> 2 * magnitude(
            level * UNITS_PER_ONE * tick - offset * UNITS_PER_ONE,
        ) <= pow10(19) * magnitude(tick),
    ensures
        2_000_000_000 * magnitude(offset - level * tick) <= magnitude(tick),
{
    lemma_one_is_pow10();
    reveal_with_fuel(pow10, 20);
    let off = offset - level * tick;
    let one = UNITS_PER_ONE as int;
    let t = magnitude(tick) as int;
    assert(level * one * tick - offset * one == -(off * one)) by (nonlinear_arith)
        requires
            off == offset - level * tick,
    ;
    assert(magnitude(-(off * one)) == magnitude(off) * one) by (nonlinear_arith)
        requires
            one > 0,
    ;
    let m = magnitude(off) as int;
    assert(2 * m <= t) by (nonlinear_arith)
        requires
            2 * (m * one) <= pow10(28) * t,
            pow10(28) == one,
            one > 0,
    ;
    assert(magnitude(level * tick) == level * t) by (nonlinear_arith)
        requires
            level >= 0,
            t == magnitude(tick),
    ;
    assert(magnitude(offset) <= level * t + t);
    assert((level * t + t) * 1_000_000_000 <= MAX_COEFFICIENT * t) by (nonlinear_arith)
        requires
            0 <= level < 0x1_0000_0000_0000_0000,
            t >= 0,
    ;
    assert(magnitude(offset) * pow10(9) <= MAX_COEFFICIENT * t) by (nonlinear_arith)
        requires
            magnitude(offset) <= level * t + t,
            (level * t + t) * 1_000_000_000 <= MAX_COEFFICIENT * t,
            pow10(9) == 1_000_000_000,
    ;
    assert(2_000_000_000 * m <= t) by (nonlinear_arith)
        requires
            2 * (m * one) <= pow10(19) * t,
            pow10(19) * 1_000_000_000 == one,
            pow10(19) > 0,
    ;
}

} // verus!
