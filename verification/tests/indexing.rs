use ring_buffer::indexing::{power_of_two_exponent, Indexer, Indexing};

#[test]
fn exponents_of_powers_of_two() {
    assert_eq!(power_of_two_exponent(1), Some(0));
    assert_eq!(power_of_two_exponent(2), Some(1));
    assert_eq!(power_of_two_exponent(4), Some(2));
    assert_eq!(power_of_two_exponent(1024), Some(10));
    let top = 1usize << (usize::BITS - 1);
    assert_eq!(power_of_two_exponent(top), Some(usize::BITS - 1));
}

#[test]
fn no_exponent_for_other_numbers() {
    assert_eq!(power_of_two_exponent(0), None);
    assert_eq!(power_of_two_exponent(3), None);
    assert_eq!(power_of_two_exponent(6), None);
    assert_eq!(power_of_two_exponent(12), None);
    assert_eq!(power_of_two_exponent(1023), None);
    assert_eq!(power_of_two_exponent(usize::MAX), None);
}

#[test]
fn mask_is_refused_unless_capacity_is_a_power_of_two() {
    assert!(Indexer::new(Indexing::Mask, 0).is_none());
    assert!(Indexer::new(Indexing::Mask, 3).is_none());
    assert!(Indexer::new(Indexing::Mask, 6).is_none());
    assert!(Indexer::new(Indexing::Mask, 1).is_some());
    assert!(Indexer::new(Indexing::Mask, 8).is_some());
    assert!(Indexer::new(Indexing::Modulo, 0).is_some());
    assert!(Indexer::new(Indexing::Modulo, 6).is_some());
}

#[test]
fn slot_and_lap_by_division() {
    let ix = Indexer::modulo(6);
    assert_eq!(ix.slot(0), 0);
    assert_eq!(ix.slot(5), 5);
    assert_eq!(ix.slot(6), 0);
    assert_eq!(ix.slot(13), 1);
    assert_eq!(ix.lap(5), 0);
    assert_eq!(ix.lap(6), 1);
    assert_eq!(ix.lap(13), 2);
    assert_eq!(ix.slot(usize::MAX), usize::MAX % 6);
}

#[test]
fn slot_and_lap_by_mask() {
    let ix = Indexer::new(Indexing::Mask, 8).unwrap();
    assert_eq!(ix.slot(0), 0);
    assert_eq!(ix.slot(7), 7);
    assert_eq!(ix.slot(8), 0);
    assert_eq!(ix.slot(13), 5);
    assert_eq!(ix.lap(7), 0);
    assert_eq!(ix.lap(8), 1);
    assert_eq!(ix.lap(13), 1);
    assert_eq!(ix.lap(16), 2);
    assert_eq!(ix.slot(usize::MAX), 7);
    assert_eq!(ix.lap(usize::MAX), usize::MAX / 8);
}

#[test]
fn mask_and_division_agree_on_slots_and_laps() {
    for capacity in [1usize, 2, 4, 64, 4096] {
        let by_division = Indexer::modulo(capacity);
        let by_mask = Indexer::new(Indexing::Mask, capacity).unwrap();
        for pos in [0usize, 1, 2, 63, 64, 65, 4095, 4096, 123_456_789, usize::MAX - 1, usize::MAX] {
            assert_eq!(by_division.slot(pos), by_mask.slot(pos));
            assert_eq!(by_division.lap(pos), by_mask.lap(pos));
        }
    }
}

#[test]
fn full_by_division() {
    let ix = Indexer::modulo(6);
    assert!(!ix.is_full(0, 0));
    assert!(!ix.is_full(0, 5));
    assert!(ix.is_full(0, 6));
    assert!(ix.is_full(10, 16));
    assert!(!ix.is_full(10, 15));
    assert!(!ix.is_full(10, 22));
    assert!(!ix.is_full(16, 10));
}

#[test]
fn full_by_mask() {
    let ix = Indexer::new(Indexing::Mask, 8).unwrap();
    assert!(!ix.is_full(0, 0));
    assert!(!ix.is_full(0, 7));
    assert!(ix.is_full(0, 8));
    assert!(ix.is_full(3, 11));
    assert!(!ix.is_full(3, 10));
    assert!(!ix.is_full(11, 11));
}

#[test]
fn zero_capacity_is_always_full() {
    let ix = Indexer::modulo(0);
    assert!(ix.is_full(0, 0));
    assert!(ix.is_full(9, 9));
}
