//! Decimal numbers: a sign, a 96-bit coefficient and a number of decimal places.
//!
//! Arithmetic and comparison are those of `rust_decimal`; every number that the library handles
//! is one that `rust_decimal` can hold. In contracts a number is read through [`Decimal::units`],
//! its value counted in units of `10^-28`, which is a whole number for every `Decimal`.
use rust_decimal::prelude::ToPrimitive;
use vstd::prelude::*;
use vstd::std_specs::cmp::PartialEqSpec;

verus! {

/// The largest number of decimal places.
pub const MAX_SCALE: u32 = 28;

/// The largest coefficient, `2^96 - 1`.
pub const MAX_COEFFICIENT: u128 = 79228162514264337593543950335;

/// How many units of `10^-28` make one.
pub const UNITS_PER_ONE: u128 = 10000000000000000000000000000;

/// A decimal number, `coefficient / 10^scale` with a sign. Zero may carry either sign.
#[derive(Clone, Copy, Debug)]
pub struct Decimal {
    negative: bool,
    coefficient: u128,
    scale: u32,
}

/// `10^n`.
pub open spec fn pow10(n: nat) -> nat
    decreases n,
{
    if n == 0 {
        1
    } else {
        10 * pow10((n - 1) as nat)
    }
}

/// The absolute value of `n`.
pub open spec fn magnitude(n: int) -> nat {
    if n < 0 {
        (-n) as nat
    } else {
        n as nat
    }
}

impl Decimal {
    /// The sign bit.
    pub closed spec fn negative(self) -> bool {
        self.negative
    }

    /// The digits, without sign and decimal point.
    pub closed spec fn coefficient(self) -> nat {
        self.coefficient as nat
    }

    /// The number of decimal places.
    pub closed spec fn places(self) -> nat {
        self.scale as nat
    }

    /// Holds of every `Decimal`: the coefficient fits in 96 bits, and there are at most
    /// [`MAX_SCALE`] decimal places.
    #[verifier::type_invariant]
    pub open spec fn valid(self) -> bool {
        &&& self.coefficient() <= MAX_COEFFICIENT
        &&& self.places() <= MAX_SCALE
    }

    /// The coefficient with its sign.
    pub open spec fn signed(self) -> int {
        if self.negative() {
            -(self.coefficient() as int)
        } else {
            self.coefficient() as int
        }
    }

    /// The value, counted in units of `10^-28`.
    pub open spec fn units(self) -> int {
        self.signed() * pow10((MAX_SCALE - self.places()) as nat)
    }

    /// The signed coefficient that the value has with `places` decimal places.
    pub open spec fn aligned(self, places: nat) -> int {
        self.signed() * pow10((places - self.places()) as nat)
    }

    /// The number with the given parts.
    pub closed spec fn of(negative: bool, coefficient: nat, places: nat) -> Decimal {
        Decimal { negative, coefficient: coefficient as u128, scale: places as u32 }
    }

    /// The number with the given signed coefficient; zero is positive.
    pub open spec fn of_signed(signed: int, places: nat) -> Decimal {
        Decimal::of(signed < 0, magnitude(signed), places)
    }

    /// The whole number `n`.
    pub open spec fn whole(n: int) -> Decimal {
        Decimal::of_signed(n, 0)
    }

    /// The number with its sign turned.
    pub open spec fn opposite(self) -> Decimal {
        Decimal::of(!self.negative(), self.coefficient(), self.places())
    }

    /// The smaller of two numbers, `self` where they are equal.
    pub open spec fn smaller(self, other: Decimal) -> Decimal {
        if self.units() > other.units() {
            other
        } else {
            self
        }
    }
}

/// The larger of the two numbers of decimal places.
pub open spec fn common_places(a: Decimal, b: Decimal) -> nat {
    if a.places() < b.places() {
        b.places()
    } else {
        a.places()
    }
}

/// Whether `numerator / denominator`, rounded to the nearest whole number, has at most 96 bits.
pub open spec fn in_range(numerator: int, denominator: int) -> bool {
    2 * magnitude(numerator) < (2 * MAX_COEFFICIENT + 1) * denominator
}

/// Whether some decimal has the value of `units` units of `10^-28`.
pub open spec fn representable(units: int) -> bool {
    exists|places: nat| places <= MAX_SCALE && #[trigger] representable_with(units, places)
}

/// Whether a decimal with `places` decimal places has the value of `units` units of `10^-28`.
pub open spec fn representable_with(units: int, places: nat) -> bool {
    &&& units % (pow10((MAX_SCALE - places) as nat) as int) == 0
    &&& magnitude(units) <= MAX_COEFFICIENT * pow10((MAX_SCALE - places) as nat)
}

/// The most decimal places, of at most `places`, with which the digits of a value of `units` units
/// of `10^-28` fit in 96 bits.
pub open spec fn most_places(units: int, places: nat) -> nat
    decreases places,
{
    if places == 0 || magnitude(units) <= MAX_COEFFICIENT * pow10((MAX_SCALE - places) as nat) {
        places
    } else {
        most_places(units, (places - 1) as nat)
    }
}

/// A value of `units` units of `10^-28`, written with `places` decimal places or, where its digits
/// do not fit so, with as many as they fit with.
pub open spec fn written(units: int, places: nat) -> Decimal {
    let kept = most_places(units, places);
    Decimal::of_signed(units / (pow10((MAX_SCALE - kept) as nat) as int), kept)
}

/// What `rust_decimal` makes of `a - b` where no decimal has the value of the exact difference.
pub uninterp spec fn rounded_difference(a: Decimal, b: Decimal) -> Decimal;

/// What `rust_decimal` makes of `a + b` where no decimal has the value of the exact sum.
pub uninterp spec fn rounded_sum(a: Decimal, b: Decimal) -> Decimal;

/// What `rust_decimal` makes of `a * b` where no decimal has the value of the exact product.
pub uninterp spec fn rounded_product(a: Decimal, b: Decimal) -> Decimal;

/// What `rust_decimal` makes of `a / b` where no decimal has the value of the exact quotient.
pub uninterp spec fn rounded_quotient(a: Decimal, b: Decimal) -> Decimal;

/// Whether some decimal has the value of the exact difference `a - b`.
pub open spec fn difference_fits(a: Decimal, b: Decimal) -> bool {
    representable(a.units() - b.units())
}

/// `a - b`: exact where a decimal has that value, and then with the decimal places of the longer
/// of the two as far as they fit.
pub open spec fn difference(a: Decimal, b: Decimal) -> Decimal {
    if !difference_fits(a, b) {
        rounded_difference(a, b)
    } else if b.coefficient() == 0 {
        if a.coefficient() == 0 {
            b
        } else {
            a
        }
    } else if a.coefficient() == 0 {
        b.opposite()
    } else {
        written(a.units() - b.units(), common_places(a, b))
    }
}

/// Whether some decimal has the value of the exact sum `a + b`.
pub open spec fn sum_fits(a: Decimal, b: Decimal) -> bool {
    representable(a.units() + b.units())
}

/// `a + b`: exact where a decimal has that value, and then with the decimal places of the longer
/// of the two as far as they fit.
pub open spec fn sum(a: Decimal, b: Decimal) -> Decimal {
    if !sum_fits(a, b) {
        rounded_sum(a, b)
    } else if a.coefficient() == 0 {
        b
    } else if b.coefficient() == 0 {
        a
    } else {
        written(a.units() + b.units(), common_places(a, b))
    }
}

/// Whether some decimal has the value of the exact product `a * b`.
pub open spec fn product_fits(a: Decimal, b: Decimal) -> bool {
    &&& (a.units() * b.units()) % (UNITS_PER_ONE as int) == 0
    &&& representable((a.units() * b.units()) / (UNITS_PER_ONE as int))
}

/// The number of decimal places of a product, as far as there can be so many.
pub open spec fn product_places(a: Decimal, b: Decimal) -> nat {
    if a.places() + b.places() <= MAX_SCALE {
        a.places() + b.places()
    } else {
        MAX_SCALE as nat
    }
}

/// `a * b`: exact where a decimal has that value, and then with the decimal places of both as far
/// as they fit.
pub open spec fn product(a: Decimal, b: Decimal) -> Decimal {
    if !product_fits(a, b) {
        rounded_product(a, b)
    } else if a.coefficient() == 0 || b.coefficient() == 0 {
        Decimal::whole(0)
    } else {
        written((a.units() * b.units()) / (UNITS_PER_ONE as int), product_places(a, b))
    }
}

/// Whether some decimal has the value of the exact quotient `a / b`.
pub open spec fn divides_exactly(a: Decimal, b: Decimal) -> bool {
    &&& (a.units() * UNITS_PER_ONE) % b.units() == 0
    &&& representable((a.units() * UNITS_PER_ONE) / b.units())
}

/// The value of `a / b` in units of `10^-28`: exact where a decimal has that value.
pub open spec fn quotient_units(a: Decimal, b: Decimal) -> int {
    if divides_exactly(a, b) {
        (a.units() * UNITS_PER_ONE) / b.units()
    } else {
        rounded_quotient(a, b).units()
    }
}

/// `units` without what follows the decimal point.
pub open spec fn whole_units(units: int) -> int {
    if units < 0 {
        -((-units) / (UNITS_PER_ONE as int) * UNITS_PER_ONE)
    } else {
        units / (UNITS_PER_ONE as int) * UNITS_PER_ONE
    }
}

/// `a < b` of `rust_decimal::Decimal`: compares the values, whatever the decimal places.
#[verifier::external_body]
pub(crate) fn less(a: Decimal, b: Decimal) -> (r: bool)
    ensures
        r == (a.units() < b.units()),
{
    let mut x = rust_decimal::Decimal::from_i128_with_scale(a.coefficient as i128, a.scale);
    x.set_sign_negative(a.negative);
    let mut y = rust_decimal::Decimal::from_i128_with_scale(b.coefficient as i128, b.scale);
    y.set_sign_negative(b.negative);
    x < y
}

/// `a == b` of `rust_decimal::Decimal`: compares the values, whatever the decimal places.
#[verifier::external_body]
pub(crate) fn same_value(a: Decimal, b: Decimal) -> (r: bool)
    ensures
        r == (a.units() == b.units()),
{
    let mut x = rust_decimal::Decimal::from_i128_with_scale(a.coefficient as i128, a.scale);
    x.set_sign_negative(a.negative);
    let mut y = rust_decimal::Decimal::from_i128_with_scale(b.coefficient as i128, b.scale);
    y.set_sign_negative(b.negative);
    x == y
}

/// `checked_sub` of `rust_decimal::Decimal`: `a - b`, or `None` where the result, rounded to a
/// whole number, exceeds 96 bits. The result is exact where some decimal has the value of the exact
/// difference; otherwise it is off by at most half of the last decimal place that 96 bits have
/// room for. Rounding keeps the sign and adds no decimal places.
#[verifier::external_body]
pub(crate) fn checked_minus(a: Decimal, b: Decimal) -> (r: Option<Decimal>)
    ensures
        match r {
            Some(d) => {
                &&& in_range(a.units() - b.units(), UNITS_PER_ONE as int)
                &&& d.valid()
                &&& d == difference(a, b)
                &&& !difference_fits(a, b) ==> d == rounded_difference(a, b)
                &&& d.units() > 0 <==> a.units() > b.units()
                &&& d.units() < 0 <==> a.units() < b.units()
                &&& d.places() <= common_places(a, b)
                &&& forall|places: nat|
                    places == 0 || (places <= MAX_SCALE && magnitude(a.units() - b.units())
                        * #[trigger] pow10(places) <= MAX_COEFFICIENT * UNITS_PER_ONE)
                        ==> 2 * magnitude(d.units() - (a.units() - b.units())) <= pow10(
                        (MAX_SCALE - places) as nat,
                    )
            },
            None => !in_range(a.units() - b.units(), UNITS_PER_ONE as int),
        },
{
    let mut x = rust_decimal::Decimal::from_i128_with_scale(a.coefficient as i128, a.scale);
    x.set_sign_negative(a.negative);
    let mut y = rust_decimal::Decimal::from_i128_with_scale(b.coefficient as i128, b.scale);
    y.set_sign_negative(b.negative);
    match x.checked_sub(y) {
        Some(d) => Some(
            Decimal {
                negative: d.is_sign_negative(),
                coefficient: d.mantissa().unsigned_abs(),
                scale: d.scale(),
            },
        ),
        None => None,
    }
}

/// `checked_add` of `rust_decimal::Decimal`: `a + b`, or `None` where the result, rounded to a
/// whole number, exceeds 96 bits. The result is exact where some decimal has the value of the exact
/// sum; otherwise it is off by at most half of the last decimal place that 96 bits have room for.
#[verifier::external_body]
pub(crate) fn checked_plus(a: Decimal, b: Decimal) -> (r: Option<Decimal>)
    ensures
        match r {
            Some(d) => {
                &&& in_range(a.units() + b.units(), UNITS_PER_ONE as int)
                &&& d.valid()
                &&& d == sum(a, b)
                &&& !sum_fits(a, b) ==> d == rounded_sum(a, b)
                &&& forall|places: nat|
                    places == 0 || (places <= MAX_SCALE && magnitude(a.units() + b.units())
                        * #[trigger] pow10(places) <= MAX_COEFFICIENT * UNITS_PER_ONE)
                        ==> 2 * magnitude(d.units() - (a.units() + b.units())) <= pow10(
                        (MAX_SCALE - places) as nat,
                    )
            },
            None => !in_range(a.units() + b.units(), UNITS_PER_ONE as int),
        },
{
    let mut x = rust_decimal::Decimal::from_i128_with_scale(a.coefficient as i128, a.scale);
    x.set_sign_negative(a.negative);
    let mut y = rust_decimal::Decimal::from_i128_with_scale(b.coefficient as i128, b.scale);
    y.set_sign_negative(b.negative);
    match x.checked_add(y) {
        Some(d) => Some(
            Decimal {
                negative: d.is_sign_negative(),
                coefficient: d.mantissa().unsigned_abs(),
                scale: d.scale(),
            },
        ),
        None => None,
    }
}

/// `checked_mul` of `rust_decimal::Decimal`: `a * b`, or `None` where the result, rounded to a
/// whole number, exceeds 96 bits. The result is exact where some decimal has the value of the exact
/// product; otherwise it is off by at most half of the last decimal place that 96 bits have room
/// for.
#[verifier::external_body]
pub(crate) fn checked_times(a: Decimal, b: Decimal) -> (r: Option<Decimal>)
    ensures
        match r {
            Some(d) => {
                &&& in_range(a.units() * b.units(), UNITS_PER_ONE * UNITS_PER_ONE)
                &&& d.valid()
                &&& d == product(a, b)
                &&& !product_fits(a, b) ==> d == rounded_product(a, b)
                &&& forall|places: nat|
                    places == 0 || (places <= MAX_SCALE && magnitude(a.units() * b.units())
                        * #[trigger] pow10(places) <= MAX_COEFFICIENT * (UNITS_PER_ONE
                        * UNITS_PER_ONE)) ==> 2 * magnitude(
                        d.units() * UNITS_PER_ONE - a.units() * b.units(),
                    ) <= pow10((MAX_SCALE - places) as nat) * UNITS_PER_ONE
            },
            None => !in_range(a.units() * b.units(), UNITS_PER_ONE * UNITS_PER_ONE),
        },
{
    let mut x = rust_decimal::Decimal::from_i128_with_scale(a.coefficient as i128, a.scale);
    x.set_sign_negative(a.negative);
    let mut y = rust_decimal::Decimal::from_i128_with_scale(b.coefficient as i128, b.scale);
    y.set_sign_negative(b.negative);
    match x.checked_mul(y) {
        Some(d) => Some(
            Decimal {
                negative: d.is_sign_negative(),
                coefficient: d.mantissa().unsigned_abs(),
                scale: d.scale(),
            },
        ),
        None => None,
    }
}

/// `checked_div` of `rust_decimal::Decimal`: `a / b`, or `None` where `b` is zero or the result,
/// rounded to a whole number, exceeds 96 bits. The result is exact where some decimal has the
/// value of the exact quotient; otherwise it is off by at most half of the last decimal place
/// that 96 bits have room for. A zero result is positive.
#[verifier::external_body]
pub(crate) fn checked_divided_by(a: Decimal, b: Decimal) -> (r: Option<Decimal>)
    ensures
        match r {
            Some(d) => {
                &&& b.units() != 0
                &&& in_range(a.units(), magnitude(b.units()) as int)
                &&& d.valid()
                &&& d.units() == quotient_units(a, b)
                &&& !divides_exactly(a, b) ==> d == rounded_quotient(a, b)
                &&& d.negative() == (d.units() < 0)
                &&& forall|places: nat|
                    places == 0 || (places <= MAX_SCALE && magnitude(a.units()) * #[trigger] pow10(
                        places,
                    ) <= MAX_COEFFICIENT * magnitude(b.units())) ==> 2 * magnitude(
                        d.units() * b.units() - a.units() * UNITS_PER_ONE,
                    ) <= pow10((MAX_SCALE - places) as nat) * magnitude(b.units())
            },
            None => b.units() == 0 || !in_range(a.units(), magnitude(b.units()) as int),
        },
{
    let mut x = rust_decimal::Decimal::from_i128_with_scale(a.coefficient as i128, a.scale);
    x.set_sign_negative(a.negative);
    let mut y = rust_decimal::Decimal::from_i128_with_scale(b.coefficient as i128, b.scale);
    y.set_sign_negative(b.negative);
    match x.checked_div(y) {
        Some(d) => Some(
            Decimal {
                negative: d.is_sign_negative(),
                coefficient: d.mantissa().unsigned_abs(),
                scale: d.scale(),
            },
        ),
        None => None,
    }
}

/// `a - b`.
pub(crate) fn minus(a: Decimal, b: Decimal) -> (r: Decimal)
    requires
        in_range(a.units() - b.units(), UNITS_PER_ONE as int),
    ensures
        r.valid(),
        r == difference(a, b),
        r.units() > 0 <==> a.units() > b.units(),
        r.units() < 0 <==> a.units() < b.units(),
        r.places() <= common_places(a, b),
{
    checked_minus(a, b).unwrap()
}

/// `fract` of `rust_decimal::Decimal`: what follows the decimal point, with the sign of `a`.
#[verifier::external_body]
pub(crate) fn fraction(a: Decimal) -> (r: Decimal)
    ensures
        r.valid(),
        r.units() == a.units() - whole_units(a.units()),
{
    let mut x = rust_decimal::Decimal::from_i128_with_scale(a.coefficient as i128, a.scale);
    x.set_sign_negative(a.negative);
    let d = x.fract();
    Decimal {
        negative: d.is_sign_negative(),
        coefficient: d.mantissa().unsigned_abs(),
        scale: d.scale(),
    }
}

/// `to_usize` that `rust_decimal::Decimal` has from `ToPrimitive`: what precedes the decimal
/// point, where the sign bit is not set and the number fits.
#[verifier::external_body]
pub(crate) fn to_usize(a: Decimal) -> (r: Option<usize>)
    ensures
        match r {
            Some(n) => !a.negative() && n as int * UNITS_PER_ONE == whole_units(a.units()),
            None => a.negative() || whole_units(a.units()) > usize::MAX * UNITS_PER_ONE,
        },
{
    let mut x = rust_decimal::Decimal::from_i128_with_scale(a.coefficient as i128, a.scale);
    x.set_sign_negative(a.negative);
    x.to_usize()
}

impl Decimal {
    /// `num / 10^scale`.
    pub fn new(num: i64, scale: u32) -> (r: Decimal)
        requires
            scale <= MAX_SCALE,
        ensures
            r == Decimal::of_signed(num as int, scale as nat),
            r.valid(),
    {
        if num < 0 {
            Decimal { negative: true, coefficient: (-(num as i128)) as u128, scale }
        } else {
            Decimal { negative: false, coefficient: num as u128, scale }
        }
    }

    /// The number with the given parts, if they are those of a decimal.
    pub fn from_parts(negative: bool, coefficient: u128, scale: u32) -> (r: Option<Decimal>)
        ensures
            match r {
                Some(d) => d == Decimal::of(negative, coefficient as nat, scale as nat)
                    && coefficient <= MAX_COEFFICIENT && scale <= MAX_SCALE && d.valid(),
                None => coefficient > MAX_COEFFICIENT || scale > MAX_SCALE,
            },
    {
        if coefficient <= MAX_COEFFICIENT && scale <= MAX_SCALE {
            Some(Decimal { negative, coefficient, scale })
        } else {
            None
        }
    }

    /// Zero, without decimal places.
    pub fn zero() -> (r: Decimal)
        ensures
            r == Decimal::whole(0),
            r.valid(),
    {
        Decimal { negative: false, coefficient: 0, scale: 0 }
    }

    /// The largest number.
    pub fn max_value() -> (r: Decimal)
        ensures
            r == Decimal::whole(MAX_COEFFICIENT as int),
            r.valid(),
    {
        Decimal { negative: false, coefficient: MAX_COEFFICIENT, scale: 0 }
    }

    /// The whole number `n`.
    pub(crate) fn from_usize(n: usize) -> (r: Decimal)
        ensures
            r == Decimal::whole(n as int),
            r.valid(),
    {
        Decimal { negative: false, coefficient: n as u128, scale: 0 }
    }

    /// Whether the sign bit is set.
    pub fn is_sign_negative(&self) -> (r: bool)
        ensures
            r == self.negative(),
    {
        self.negative
    }

    /// The number of decimal places.
    pub fn scale(&self) -> (r: u32)
        ensures
            r == self.places(),
    {
        self.scale
    }

    /// The coefficient with its sign.
    pub fn mantissa(&self) -> (r: i128)
        ensures
            r == self.signed(),
    {
        proof {
            use_type_invariant(self);
        }
        if self.negative {
            -(self.coefficient as i128)
        } else {
            self.coefficient as i128
        }
    }

    /// The number with its sign turned.
    pub(crate) fn negated(self) -> (r: Decimal)
        ensures
            r == self.opposite(),
            r.valid(),
    {
        proof {
            use_type_invariant(self);
        }
        Decimal { negative: !self.negative, coefficient: self.coefficient, scale: self.scale }
    }

    /// Whether the value is zero.
    pub(crate) fn is_zero(self) -> (r: bool)
        ensures
            r == (self.units() == 0),
    {
        proof {
            lemma_units_of_zero(self);
        }
        self.coefficient == 0
    }

    /// The largest whole number that the value is not below, and the rest in units of `10^-28`.
    pub(crate) fn floor_and_rest(self) -> (r: (i128, u128))
        ensures
            r.0 * UNITS_PER_ONE + r.1 == self.units(),
            r.1 < UNITS_PER_ONE,
    {
        proof {
            use_type_invariant(self);
            lemma_pow10_positive(self.places());
            lemma_one_is_pow10();
            lemma_pow10_adds(self.places(), (MAX_SCALE - self.places()) as nat);
        }
        let ones: u128 = power_of_ten(self.scale);
        let unit: u128 = power_of_ten(MAX_SCALE - self.scale);
        let whole: u128 = self.coefficient / ones;
        let digits: u128 = self.coefficient % ones;
        proof {
            let (c, w, d, o, u) = (
                self.coefficient as int,
                whole as int,
                digits as int,
                ones as int,
                unit as int,
            );
            assert(c == w * o + d && 0 <= d < o && 0 <= w <= c) by (nonlinear_arith)
                requires
                    o > 0,
                    c >= 0,
                    w == c / o,
                    d == c % o,
            ;
            assert(c * u == w * (o * u) + d * u && 0 <= d * u <= (o - 1) * u && (o - 1) * u == o * u
                - u) by (nonlinear_arith)
                requires
                    c == w * o + d,
                    0 <= d < o,
                    u >= 0,
            ;
            lemma_pow10_positive((MAX_SCALE - self.places()) as nat);
            assert((-c) * u == -(c * u)) by (nonlinear_arith);
        }
        let rest: u128 = digits * unit;
        if !self.negative {
            (whole as i128, rest)
        } else if rest == 0 {
            (-(whole as i128), 0)
        } else {
            (-(whole as i128) - 1, UNITS_PER_ONE - rest)
        }
    }

    /// Whether the value is above zero.
    pub(crate) fn is_positive(self) -> (r: bool)
        ensures
            r == (self.units() > 0),
    {
        let zero = Decimal::zero();
        proof {
            broadcast use lemma_of;

            lemma_units_of_zero(zero);
        }
        less(zero, self)
    }

    /// The smaller of two numbers, `self` where they are equal.
    pub(crate) fn min(self, other: Decimal) -> (r: Decimal)
        ensures
            r == self.smaller(other),
    {
        if less(other, self) {
            other
        } else {
            self
        }
    }
}

/// `10^n`.
fn power_of_ten(n: u32) -> (r: u128)
    requires
        n <= MAX_SCALE,
    ensures
        r == pow10(n as nat),
{
    let mut r: u128 = 1;
    let mut i: u32 = 0;
    while i < n
        invariant
            i <= n <= MAX_SCALE,
            r == pow10(i as nat),
        decreases n - i,
    {
        proof {
            lemma_one_is_pow10();
            lemma_pow10_monotone((i + 1) as nat, 28);
        }
        r = 10 * r;
        i = i + 1;
    }
    r
}

impl PartialEq for Decimal {
    fn eq(&self, other: &Self) -> (r: bool) {
        same_value(*self, *other)
    }
}

impl vstd::std_specs::cmp::PartialEqSpecImpl for Decimal {
    open spec fn obeys_eq_spec() -> bool {
        true
    }

    open spec fn eq_spec(&self, other: &Self) -> bool {
        self.units() == other.units()
    }
}

impl Eq for Decimal {

}

impl From<i64> for Decimal {
    fn from(n: i64) -> (r: Self) {
        Decimal::new(n, 0)
    }
}

impl vstd::std_specs::convert::FromSpecImpl<i64> for Decimal {
    open spec fn obeys_from_spec() -> bool {
        true
    }

    open spec fn from_spec(n: i64) -> Self {
        Decimal::whole(n as int)
    }
}

// What the rest of the library uses of the definitions above.

/// The parts of a number are those that it was made of.
pub broadcast proof fn lemma_of(negative: bool, coefficient: nat, places: nat)
    requires
        coefficient <= MAX_COEFFICIENT,
        places <= MAX_SCALE,
    ensures
        (#[trigger] Decimal::of(negative, coefficient, places)).negative() == negative,
        Decimal::of(negative, coefficient, places).coefficient() == coefficient,
        Decimal::of(negative, coefficient, places).places() == places,
{
}

/// Powers of ten are positive.
pub proof fn lemma_pow10_positive(n: nat)
    ensures
        pow10(n) > 0,
    decreases n,
{
    if n > 0 {
        lemma_pow10_positive((n - 1) as nat);
    }
}

/// The exponents of powers of ten add up in a product.
pub proof fn lemma_pow10_adds(m: nat, n: nat)
    ensures
        pow10(m + n) == pow10(m) * pow10(n),
    decreases m,
{
    if m > 0 {
        let k = (m - 1) as nat;
        lemma_pow10_adds(k, n);
        assert((m + n - 1) as nat == k + n);
        assert(10 * (pow10(k) * pow10(n)) == (10 * pow10(k)) * pow10(n)) by (nonlinear_arith);
    } else {
        assert(1 * pow10(n) == pow10(n));
    }
}

/// Powers of ten rise with the exponent.
pub proof fn lemma_pow10_monotone(m: nat, n: nat)
    requires
        m <= n,
    ensures
        pow10(m) <= pow10(n),
    decreases n,
{
    if m < n {
        lemma_pow10_monotone(m, (n - 1) as nat);
    }
}

/// A number is zero exactly where its coefficient is.
pub proof fn lemma_units_of_zero(a: Decimal)
    ensures
        a.units() == 0 <==> a.coefficient() == 0,
        a.units() > 0 <==> a.coefficient() > 0 && !a.negative(),
{
    let p = pow10((MAX_SCALE - a.places()) as nat);
    lemma_pow10_positive((MAX_SCALE - a.places()) as nat);
    assert(a.signed() * p == 0 <==> a.signed() == 0) by (nonlinear_arith)
        requires
            p > 0,
    ;
    assert(a.signed() * p > 0 <==> a.signed() > 0) by (nonlinear_arith)
        requires
            p > 0,
    ;
}

/// The units in one are a power of ten.
pub proof fn lemma_one_is_pow10()
    ensures
        pow10(28) == UNITS_PER_ONE,
{
    reveal_with_fuel(pow10, 29);
}

/// No value exceeds that of the largest coefficient without decimal places.
pub proof fn lemma_units_bound(a: Decimal)
    requires
        a.valid(),
    ensures
        magnitude(a.units()) <= MAX_COEFFICIENT * UNITS_PER_ONE,
{
    let p = pow10((MAX_SCALE - a.places()) as nat) as int;
    let c = a.coefficient() as int;
    lemma_one_is_pow10();
    lemma_pow10_monotone((MAX_SCALE - a.places()) as nat, 28);
    assert(magnitude(a.signed() * p) == c * p) by (nonlinear_arith)
        requires
            p >= 0,
            c >= 0,
            a.signed() == c || a.signed() == -c,
    ;
    assert(c * p <= MAX_COEFFICIENT * UNITS_PER_ONE) by (nonlinear_arith)
        requires
            0 <= c <= MAX_COEFFICIENT,
            0 <= p <= UNITS_PER_ONE,
    ;
}

/// The difference of two numbers that are not negative is in range.
pub proof fn lemma_difference_in_range(a: Decimal, b: Decimal)
    requires
        a.valid(),
        b.valid(),
        a.units() >= 0,
        b.units() >= 0,
    ensures
        in_range(a.units() - b.units(), UNITS_PER_ONE as int),
{
    lemma_units_bound(a);
    lemma_units_bound(b);
}

/// More decimal places write the same value.
pub proof fn lemma_aligned(a: Decimal, places: nat)
    requires
        a.places() <= places <= MAX_SCALE,
    ensures
        a.aligned(places) * pow10((MAX_SCALE - places) as nat) == a.units(),
{
    let up = pow10((places - a.places()) as nat) as int;
    let down = pow10((MAX_SCALE - places) as nat) as int;
    lemma_pow10_adds((places - a.places()) as nat, (MAX_SCALE - places) as nat);
    assert((places - a.places()) as nat + (MAX_SCALE - places) as nat == (MAX_SCALE
        - a.places()) as nat);
    assert((a.signed() * up) * down == a.signed() * (up * down)) by (nonlinear_arith);
}

/// The value of a number that is written with `signed` as its digits.
pub proof fn lemma_of_signed(signed: int, places: nat)
    requires
        magnitude(signed) <= MAX_COEFFICIENT,
        places <= MAX_SCALE,
    ensures
        Decimal::of_signed(signed, places).valid(),
        Decimal::of_signed(signed, places).signed() == signed,
        Decimal::of_signed(signed, places).places() == places,
        Decimal::of_signed(signed, places).units() == signed * pow10((MAX_SCALE - places) as nat),
{
    broadcast use lemma_of;

}

/// Turning the sign of a number turns the sign of its value.
pub proof fn lemma_opposite(a: Decimal)
    requires
        a.valid(),
    ensures
        a.opposite().valid(),
        a.opposite().units() == -a.units(),
        a.opposite().places() == a.places(),
{
    broadcast use lemma_of;

    let p = pow10((MAX_SCALE - a.places()) as nat) as int;
    assert((-a.signed()) * p == -(a.signed() * p)) by (nonlinear_arith);
}

/// A value has no digits behind its decimal places.
pub proof fn lemma_divisible(a: Decimal, places: nat)
    requires
        a.places() <= places <= MAX_SCALE,
    ensures
        a.units() % (pow10((MAX_SCALE - places) as nat) as int) == 0,
{
    let unit = pow10((MAX_SCALE - places) as nat) as int;
    lemma_aligned(a, places);
    lemma_pow10_positive((MAX_SCALE - places) as nat);
    vstd::arithmetic::div_mod::lemma_mod_multiples_basic(a.aligned(places), unit);
}

/// A difference has no digits behind the decimal places of its operands.
pub proof fn lemma_difference_divisible(a: Decimal, b: Decimal, places: nat)
    requires
        a.places() <= places <= MAX_SCALE,
        b.places() <= places,
    ensures
        (a.units() - b.units()) % (pow10((MAX_SCALE - places) as nat) as int) == 0,
{
    let unit = pow10((MAX_SCALE - places) as nat) as int;
    lemma_aligned(a, places);
    lemma_aligned(b, places);
    lemma_pow10_positive((MAX_SCALE - places) as nat);
    let digits = a.aligned(places) - b.aligned(places);
    assert(digits * unit == a.aligned(places) * unit - b.aligned(places) * unit)
        by (nonlinear_arith)
        requires
            digits == a.aligned(places) - b.aligned(places),
    ;
    vstd::arithmetic::div_mod::lemma_mod_multiples_basic(digits, unit);
}

/// A multiple of a power of ten is one of every smaller power.
proof fn lemma_divides_further(units: int, m: nat, n: nat)
    requires
        m <= n,
        units % (pow10(n) as int) == 0,
    ensures
        units % (pow10(m) as int) == 0,
{
    let (p, q, r) = (pow10(m) as int, pow10(n) as int, pow10((n - m) as nat) as int);
    lemma_pow10_positive(m);
    lemma_pow10_positive(n);
    lemma_pow10_adds(m, (n - m) as nat);
    vstd::arithmetic::div_mod::lemma_fundamental_div_mod(units, q);
    let k = units / q;
    assert(units == (k * r) * p) by (nonlinear_arith)
        requires
            units == q * k,
            q == p * r,
    ;
    vstd::arithmetic::div_mod::lemma_mod_multiples_basic(k * r, p);
}

/// What fits with `fewer` decimal places fits with those that are kept.
proof fn lemma_most_places(units: int, places: nat, fewer: nat)
    requires
        fewer <= places <= MAX_SCALE,
        magnitude(units) <= MAX_COEFFICIENT * pow10((MAX_SCALE - fewer) as nat),
    ensures
        fewer <= most_places(units, places) <= places,
        magnitude(units) <= MAX_COEFFICIENT * pow10(
            (MAX_SCALE - most_places(units, places)) as nat,
        ),
    decreases places,
{
    if places > fewer {
        if magnitude(units) > MAX_COEFFICIENT * pow10((MAX_SCALE - places) as nat) {
            lemma_most_places(units, (places - 1) as nat, fewer);
        }
    }
}

/// Where some decimal has a value, writing the value down is exact.
pub proof fn lemma_written(units: int, places: nat)
    requires
        places <= MAX_SCALE,
        representable(units),
        units % (pow10((MAX_SCALE - places) as nat) as int) == 0,
    ensures
        written(units, places).valid(),
        written(units, places).units() == units,
        written(units, places).places() <= places,
        written(units, places).negative() == (units < 0),
{
    broadcast use lemma_of;

    let p = choose|p: nat| p <= MAX_SCALE && #[trigger] representable_with(units, p);
    let fewer = if p < places {
        p
    } else {
        places
    };
    lemma_pow10_monotone((MAX_SCALE - p) as nat, (MAX_SCALE - fewer) as nat);
    assert(MAX_COEFFICIENT * pow10((MAX_SCALE - p) as nat) <= MAX_COEFFICIENT * pow10(
        (MAX_SCALE - fewer) as nat,
    )) by (nonlinear_arith)
        requires
            pow10((MAX_SCALE - p) as nat) <= pow10((MAX_SCALE - fewer) as nat),
    ;
    lemma_most_places(units, places, fewer);
    let kept = most_places(units, places);
    let unit = pow10((MAX_SCALE - kept) as nat) as int;
    lemma_divides_further(units, (MAX_SCALE - kept) as nat, (MAX_SCALE - fewer) as nat);
    lemma_pow10_positive((MAX_SCALE - kept) as nat);
    vstd::arithmetic::div_mod::lemma_fundamental_div_mod(units, unit);
    let digits = units / unit;
    assert(magnitude(digits) <= MAX_COEFFICIENT && (digits < 0 <==> units < 0)) by (nonlinear_arith)
        requires
            units == unit * digits,
            unit > 0,
            magnitude(units) <= MAX_COEFFICIENT * unit,
    ;
    assert(digits * unit == units) by (nonlinear_arith)
        requires
            units == unit * digits,
    ;
    lemma_of_signed(digits, kept);
}

/// Where some decimal has the value of the difference, subtraction is exact.
pub proof fn lemma_difference_exact(a: Decimal, b: Decimal)
    requires
        a.valid(),
        b.valid(),
        difference_fits(a, b),
    ensures
        difference(a, b).valid(),
        difference(a, b).units() == a.units() - b.units(),
        difference(a, b).places() <= common_places(a, b),
{
    let places = common_places(a, b);
    lemma_units_of_zero(a);
    lemma_units_of_zero(b);
    if a.coefficient() == 0 {
        lemma_opposite(b);
    } else if b.coefficient() != 0 {
        lemma_difference_divisible(a, b, places);
        lemma_written(a.units() - b.units(), places);
    }
}

/// Where some decimal has the value of the sum, addition is exact.
pub proof fn lemma_sum_exact(a: Decimal, b: Decimal)
    requires
        a.valid(),
        b.valid(),
        sum_fits(a, b),
    ensures
        sum(a, b).valid(),
        sum(a, b).units() == a.units() + b.units(),
{
    let places = common_places(a, b);
    let unit = pow10((MAX_SCALE - places) as nat) as int;
    lemma_units_of_zero(a);
    lemma_units_of_zero(b);
    if a.coefficient() != 0 && b.coefficient() != 0 {
        lemma_divisible(a, places);
        lemma_divisible(b, places);
        lemma_pow10_positive((MAX_SCALE - places) as nat);
        vstd::arithmetic::div_mod::lemma_add_mod_noop(a.units(), b.units(), unit);
        lemma_written(a.units() + b.units(), places);
    }
}

/// Where some decimal has the value of the product, multiplication is exact.
pub proof fn lemma_product_exact(a: Decimal, b: Decimal)
    requires
        a.valid(),
        b.valid(),
        product_fits(a, b),
    ensures
        product(a, b).valid(),
        product(a, b).units() * UNITS_PER_ONE == a.units() * b.units(),
{
    let one = UNITS_PER_ONE as int;
    let units = (a.units() * b.units()) / one;
    lemma_units_of_zero(a);
    lemma_units_of_zero(b);
    vstd::arithmetic::div_mod::lemma_fundamental_div_mod(a.units() * b.units(), one);
    assert(units * one == a.units() * b.units());
    if a.coefficient() == 0 || b.coefficient() == 0 {
        lemma_of_signed(0, 0);
        assert(a.units() * b.units() == 0) by (nonlinear_arith)
            requires
                a.units() == 0 || b.units() == 0,
        ;
    } else {
        let (p, q) = (a.places(), b.places());
        if p + q <= MAX_SCALE {
            let (up, uq) = (
                pow10((MAX_SCALE - p) as nat) as int,
                pow10((MAX_SCALE - q) as nat) as int,
            );
            let u = pow10((MAX_SCALE - (p + q)) as nat) as int;
            let (x, y) = (a.signed(), b.signed());
            lemma_one_is_pow10();
            lemma_pow10_adds((MAX_SCALE - p) as nat, (MAX_SCALE - q) as nat);
            lemma_pow10_adds((MAX_SCALE - (p + q)) as nat, 28);
            lemma_pow10_positive((MAX_SCALE - (p + q)) as nat);
            assert((MAX_SCALE - p) as nat + (MAX_SCALE - q) as nat == (MAX_SCALE - (p + q)) as nat
                + 28);
            assert(units == (x * y) * u) by (nonlinear_arith)
                requires
                    up * uq == u * one,
                    units * one == (x * up) * (y * uq),
                    one > 0,
            ;
            vstd::arithmetic::div_mod::lemma_mod_multiples_basic(x * y, u);
        } else {
            assert(pow10(0) == 1);
        }
        lemma_written(units, product_places(a, b));
    }
}

/// A number less itself is zero.
pub proof fn lemma_difference_of_self(a: Decimal)
    ensures
        difference(a, a).units() == 0,
{
    let unit = pow10((MAX_SCALE - a.places()) as nat);
    lemma_pow10_positive(MAX_SCALE as nat);
    lemma_pow10_positive((MAX_SCALE - a.places()) as nat);
    assert(representable_with(0, 0));
    assert(MAX_COEFFICIENT * unit >= 0) by (nonlinear_arith);
    assert(most_places(0, a.places()) == a.places());
    assert(0int / unit as int == 0) by (nonlinear_arith)
        requires
            unit > 0,
    ;
    lemma_units_of_zero(difference(a, a));
}

/// Two numbers are equal exactly where they are as fractions: `a / 10^m` and `b / 10^n` where
/// `a * 10^n` and `b * 10^m` are the same.
pub proof fn lemma_equal_as_fractions(a: Decimal, b: Decimal)
    requires
        a.valid(),
        b.valid(),
    ensures
        a.eq_spec(&b) <==> a.signed() * pow10(b.places())
            == b.signed() * pow10(a.places()),
{
    let (x, y) = (a.signed(), b.signed());
    let (m, n) = (pow10(a.places()) as int, pow10(b.places()) as int);
    let (u, v) = (
        pow10((MAX_SCALE - a.places()) as nat) as int,
        pow10((MAX_SCALE - b.places()) as nat) as int,
    );
    let one = pow10(MAX_SCALE as nat) as int;
    lemma_pow10_positive(a.places());
    lemma_pow10_positive(b.places());
    lemma_pow10_positive(MAX_SCALE as nat);
    lemma_pow10_adds(a.places(), (MAX_SCALE - a.places()) as nat);
    lemma_pow10_adds(b.places(), (MAX_SCALE - b.places()) as nat);
    assert((x * u) * (m * n) == (x * n) * one) by (nonlinear_arith)
        requires
            m * u == one,
    ;
    assert((y * v) * (m * n) == (y * m) * one) by (nonlinear_arith)
        requires
            n * v == one,
    ;
    assert(x * u == y * v ==> (x * n) * one == (y * m) * one);
    assert((x * n) * one == (y * m) * one ==> x * n == y * m) by (nonlinear_arith)
        requires
            one > 0,
    ;
    assert(m * n > 0) by (nonlinear_arith)
        requires
            m > 0,
            n > 0,
    ;
    let p = m * n;
    assert((x * u) * p == (y * v) * p ==> x * u == y * v) by (nonlinear_arith)
        requires
            p > 0,
    ;
}

/// A whole number has its own value.
pub proof fn lemma_from_whole(n: i64)
    ensures
        ({
            let d = <Decimal as vstd::std_specs::convert::FromSpec<i64>>::from_spec(n);
            d.signed() == n && d.places() == 0 && d.units() == n * UNITS_PER_ONE
        }),
{
    lemma_of_signed(n as int, 0);
    lemma_one_is_pow10();
}

} // verus!
