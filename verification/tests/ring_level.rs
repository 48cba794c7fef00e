use minimalist_order_book::decimal::Decimal;
use minimalist_order_book::ring_level::RingLevel;
use minimalist_order_book::types::{OrderId, Quantity};

/// Collect all live entries by scanning head..tail, skipping tombstones.
fn collect_live<const D: usize>(ring: &RingLevel<D>) -> Vec<(OrderId, Quantity)> {
    let mut out = Vec::new();
    let mut cursor = ring.head();
    while cursor != ring.tail() {
        let slot = RingLevel::<D>::slot(cursor);
        if ring.is_live(slot) {
            out.push((ring.order_id(slot), ring.qty(slot)));
        }
        cursor += 1;
    }
    out
}

#[test]
fn test_push_and_scan() {
    let mut ring = RingLevel::<4>::new();
    assert!(ring.is_empty());

    ring.push(1, Decimal::from(10)).unwrap();
    ring.push(2, Decimal::from(20)).unwrap();
    assert!(!ring.is_empty());

    let live = collect_live(&ring);
    assert_eq!(live.len(), 2);
    assert_eq!(live[0], (1, Decimal::from(10)));
    assert_eq!(live[1], (2, Decimal::from(20)));
}

#[test]
fn test_cancel_creates_tombstone() {
    let mut ring = RingLevel::<4>::new();
    ring.push(1, Decimal::from(10)).unwrap();
    let slot2 = ring.push(2, Decimal::from(20)).unwrap();
    ring.push(3, Decimal::from(30)).unwrap();

    ring.cancel(slot2);

    let live = collect_live(&ring);
    assert_eq!(live.len(), 2);
    assert_eq!(live[0].0, 1);
    assert_eq!(live[1].0, 3);
}

#[test]
fn test_full_rejection() {
    let mut ring = RingLevel::<2>::new();
    assert!(ring.push(1, Decimal::from(10)).is_some());
    assert!(ring.push(2, Decimal::from(20)).is_some());
    assert!(ring.push(3, Decimal::from(30)).is_none());
    assert!(ring.is_full());
}

#[test]
fn test_cancel_does_not_free_physical_capacity() {
    let mut ring = RingLevel::<4>::new();

    ring.push(1, Decimal::from(10)).unwrap();
    let s1 = ring.push(2, Decimal::from(20)).unwrap();
    ring.push(3, Decimal::from(30)).unwrap();
    ring.push(4, Decimal::from(40)).unwrap();
    assert!(ring.is_full());

    ring.cancel(s1);
    assert!(ring.is_full());

    assert!(ring.push(5, Decimal::from(50)).is_none());
}

#[test]
fn test_scan_skips_tombstones() {
    let mut ring = RingLevel::<4>::new();
    let slot1 = ring.push(1, Decimal::from(10)).unwrap();
    ring.push(2, Decimal::from(20)).unwrap();

    ring.cancel(slot1);

    let live = collect_live(&ring);
    assert_eq!(live.len(), 1);
    assert_eq!(live[0].0, 2);
}

#[test]
fn test_live_count_tracks_correctly() {
    let mut ring = RingLevel::<4>::new();
    assert!(ring.is_empty());

    let s1 = ring.push(1, Decimal::from(10)).unwrap();
    let s2 = ring.push(2, Decimal::from(20)).unwrap();
    assert!(!ring.is_empty());

    ring.cancel(s1);
    assert!(!ring.is_empty());

    ring.cancel(s2);
    assert!(ring.is_empty());
}

#[test]
fn test_cancel_tombstones_but_scan_skips() {
    let mut ring = RingLevel::<4>::new();
    ring.push(1, Decimal::from(10)).unwrap();
    let s2 = ring.push(2, Decimal::from(20)).unwrap();
    ring.push(3, Decimal::from(30)).unwrap();
    ring.push(4, Decimal::from(40)).unwrap();

    ring.cancel(s2);

    let live = collect_live(&ring);
    assert_eq!(live.len(), 3);
    assert_eq!(live[0].0, 1);
    assert_eq!(live[1].0, 3);
    assert_eq!(live[2].0, 4);
}

#[test]
fn test_bitmap_word_boundary() {
    // DEPTH=128 uses 2 bitmap words — test entries spanning the boundary
    let mut ring = RingLevel::<128>::new();
    // Push entries at slots 62, 63, 64, 65 (straddles word 0/1 boundary)
    for i in 0..66 {
        ring.push(i + 1, Decimal::from(i as i64 + 1)).unwrap();
    }
    // Cancel slots 63 and 64 (last bit of word 0, first bit of word 1)
    ring.cancel(63);
    ring.cancel(64);

    assert!(!ring.is_live(63));
    assert!(!ring.is_live(64));
    assert!(ring.is_live(62));
    assert!(ring.is_live(65));

    let live = collect_live(&ring);
    assert_eq!(live.len(), 64); // 66 - 2 cancelled
}
