use ring_buffer::indexing::{Indexer, Indexing};
use ring_buffer::protocol::{GetPlan, InsertPlan};

#[test]
fn insertion_claims_the_next_free_position() {
    let ix = Indexer::modulo(6);
    assert_eq!(ix.plan_insert(0, 0), InsertPlan::Claim { place: 0, next: 1, slot: 0 });
    assert_eq!(ix.plan_insert(10, 15), InsertPlan::Claim { place: 15, next: 16, slot: 3 });
    assert_eq!(ix.plan_insert(12, 12), InsertPlan::Claim { place: 12, next: 13, slot: 0 });
}

#[test]
fn insertion_is_refused_when_every_slot_is_taken() {
    let ix = Indexer::modulo(6);
    assert_eq!(ix.plan_insert(0, 6), InsertPlan::Full);
    assert_eq!(ix.plan_insert(10, 16), InsertPlan::Full);
    let one = Indexer::modulo(1);
    assert_eq!(one.plan_insert(7, 8), InsertPlan::Full);
    assert_eq!(one.plan_insert(8, 8), InsertPlan::Claim { place: 8, next: 9, slot: 0 });
    let none = Indexer::modulo(0);
    assert_eq!(none.plan_insert(0, 0), InsertPlan::Full);
}

#[test]
fn insertion_by_division_goes_on_after_a_start_that_has_moved_past() {
    let ix = Indexer::modulo(6);
    assert_eq!(ix.plan_insert(9, 7), InsertPlan::Claim { place: 7, next: 8, slot: 1 });
    assert_eq!(ix.plan_insert(13, 7), InsertPlan::Claim { place: 7, next: 8, slot: 1 });
}

#[test]
fn insertion_planned_by_mask() {
    let ix = Indexer::new(Indexing::Mask, 8).unwrap();
    assert_eq!(ix.plan_insert(0, 0), InsertPlan::Claim { place: 0, next: 1, slot: 0 });
    assert_eq!(ix.plan_insert(3, 10), InsertPlan::Claim { place: 10, next: 11, slot: 2 });
    assert_eq!(ix.plan_insert(3, 11), InsertPlan::Full);
    assert_eq!(ix.plan_insert(16, 24), InsertPlan::Full);
    assert_eq!(ix.plan_insert(16, 23), InsertPlan::Claim { place: 23, next: 24, slot: 7 });
}

#[test]
fn removal_takes_the_oldest_position() {
    let ix = Indexer::modulo(6);
    assert_eq!(ix.plan_get(0, 1), GetPlan::Take { place: 0, next: 1, slot: 0 });
    assert_eq!(ix.plan_get(10, 15), GetPlan::Take { place: 10, next: 11, slot: 4 });
    assert_eq!(ix.plan_get(17, 18), GetPlan::Take { place: 17, next: 18, slot: 5 });
    let masked = Indexer::new(Indexing::Mask, 4).unwrap();
    assert_eq!(masked.plan_get(10, 12), GetPlan::Take { place: 10, next: 11, slot: 2 });
}

#[test]
fn removal_finds_nothing_when_start_has_reached_end() {
    let ix = Indexer::modulo(6);
    assert_eq!(ix.plan_get(0, 0), GetPlan::Empty);
    assert_eq!(ix.plan_get(15, 15), GetPlan::Empty);
    let none = Indexer::modulo(0);
    assert_eq!(none.plan_get(0, 0), GetPlan::Empty);
    let masked = Indexer::new(Indexing::Mask, 4).unwrap();
    assert_eq!(masked.plan_get(12, 12), GetPlan::Empty);
}

#[test]
fn plans_at_the_last_positions() {
    let ix = Indexer::new(Indexing::Mask, 4).unwrap();
    assert_eq!(
        ix.plan_insert(usize::MAX - 2, usize::MAX - 1),
        InsertPlan::Claim { place: usize::MAX - 1, next: usize::MAX, slot: 2 }
    );
    assert_eq!(
        ix.plan_get(usize::MAX - 1, usize::MAX),
        GetPlan::Take { place: usize::MAX - 1, next: usize::MAX, slot: 2 }
    );
}
