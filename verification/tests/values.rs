use minimalist_order_book::decimal::Decimal;
use minimalist_order_book::ring_level::{is_power_of_two, RingLevel};

#[test]
fn numbers_are_equal_by_value() {
    assert_eq!(Decimal::from(5), Decimal::new(500, 2));
    assert_ne!(Decimal::from(5), Decimal::new(501, 2));
    assert_ne!(Decimal::from(5), Decimal::from(-5));
    assert_eq!(Decimal::from_parts(true, 0, 3).unwrap(), Decimal::zero());
}

#[test]
fn parts_of_a_number() {
    let number = Decimal::new(-12345, 2);
    assert!(number.is_sign_negative());
    assert_eq!(number.mantissa(), -12345);
    assert_eq!(number.scale(), 2);
    assert_eq!(Decimal::new(i64::MIN, 0).mantissa(), i64::MIN as i128);
    assert_eq!(Decimal::max_value().mantissa(), (1i128 << 96) - 1);
    let same = Decimal::from_parts(true, 12345, 2).unwrap();
    assert_eq!(same, number);
    assert!(Decimal::from_parts(false, 1 << 96, 0).is_none());
    assert!(Decimal::from_parts(false, 1, 29).is_none());
}

#[test]
fn powers_of_two() {
    assert!(!is_power_of_two(0));
    assert!(is_power_of_two(1));
    assert!(is_power_of_two(64));
    assert!(!is_power_of_two(96));
    assert!(is_power_of_two(1 << 31));
}

#[test]
fn counters_wrap_around_the_places() {
    assert_eq!(RingLevel::<4>::slot(3), 3);
    assert_eq!(RingLevel::<4>::slot(6), 2);
    assert_eq!(RingLevel::<1>::slot(6), 0);
}

#[test]
fn a_level_takes_places_in_order_until_it_is_reset() {
    let mut ring = RingLevel::<2>::default();
    assert_eq!(ring.head(), 0);
    assert_eq!(ring.tail(), 0);
    assert_eq!(ring.push(8, Decimal::from(1)), Some(0));
    assert_eq!(ring.push(9, Decimal::from(2)), Some(1));
    assert_eq!(ring.tail(), 2);
    ring.set_qty(1, Decimal::from(7));
    assert_eq!(ring.qty(1), Decimal::from(7));
    assert_eq!(ring.order_id(1), 9);
    assert!(ring.is_live(1));
    ring.reset();
    assert!(ring.is_empty());
    assert!(!ring.is_full());
    assert!(!ring.is_live(1));
    assert_eq!(ring.order_id(1), 9);
    assert_eq!(ring.push(5, Decimal::from(3)), Some(0));
}

#[test]
fn bits_past_the_last_place_are_not_set() {
    let mut ring = RingLevel::<2>::new();
    ring.push(1, Decimal::from(1));
    ring.push(2, Decimal::from(1));
    for slot in 2..64 {
        assert!(!ring.is_live(slot));
    }
}
