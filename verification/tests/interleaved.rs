use ring_buffer::indexing::{Indexer, Indexing};
use ring_buffer::protocol::{GetPlan, InsertPlan};

/// The positions and slots that the workers share. Every access is one
/// step, and a scheduler decides whose step comes next.
struct Shared {
    indexer: Indexer,
    start: usize,
    end: usize,
    reserved: usize,
    slots: Vec<Option<u64>>,
}

/// A worker that inserts the values of `pending`, one after the other, and
/// begins again with the same value whenever it is refused.
enum Producer {
    SawNothing,
    SawReserved { reserved: usize },
    Claiming { place: usize, next: usize, slot: usize },
    Claimed { place: usize, next: usize, slot: usize },
    Written { place: usize, next: usize },
}

/// A worker that removes values and collects what it got.
enum Consumer {
    SawNothing,
    SawStart { start: usize },
    Peeking { place: usize, next: usize, slot: usize },
    Peeked { place: usize, next: usize, seen: Option<u64> },
}

fn shared(indexing: Indexing, capacity: usize) -> Shared {
    Shared {
        indexer: Indexer::new(indexing, capacity).unwrap(),
        start: 0,
        end: 0,
        reserved: 0,
        slots: vec![None; capacity],
    }
}

/// One step of a producer. Returns true when a value has been inserted.
fn produce(shared: &mut Shared, state: &mut Producer, value: u64) -> bool {
    match *state {
        Producer::SawNothing => {
            *state = Producer::SawReserved { reserved: shared.reserved };
            false
        }
        Producer::SawReserved { reserved } => {
            *state = match shared.indexer.plan_insert(shared.start, reserved) {
                InsertPlan::Full => Producer::SawNothing,
                InsertPlan::Claim { place, next, slot } => Producer::Claiming { place, next, slot },
            };
            false
        }
        Producer::Claiming { place, next, slot } => {
            if shared.reserved == place {
                shared.reserved = next;
                *state = Producer::Claimed { place, next, slot };
            } else {
                *state = Producer::SawNothing;
            }
            false
        }
        Producer::Claimed { place, next, slot } => {
            assert_eq!(shared.slots[slot], None);
            shared.slots[slot] = Some(value);
            *state = Producer::Written { place, next };
            false
        }
        Producer::Written { place, next } => {
            if shared.end == place {
                shared.end = next;
                *state = Producer::SawNothing;
                true
            } else {
                false
            }
        }
    }
}

/// One step of a consumer. Returns the value removed, if the step removed
/// one.
fn consume(shared: &mut Shared, state: &mut Consumer) -> Option<u64> {
    match *state {
        Consumer::SawNothing => {
            *state = Consumer::SawStart { start: shared.start };
            None
        }
        Consumer::SawStart { start } => {
            *state = match shared.indexer.plan_get(start, shared.end) {
                GetPlan::Empty => Consumer::SawNothing,
                GetPlan::Take { place, next, slot } => Consumer::Peeking { place, next, slot },
            };
            None
        }
        Consumer::Peeking { place, next, slot } => {
            *state = Consumer::Peeked { place, next, seen: shared.slots[slot] };
            None
        }
        Consumer::Peeked { place, next, seen } => {
            *state = Consumer::SawNothing;
            if shared.start == place {
                shared.start = next;
                let slot = shared.indexer.slot(place);
                shared.slots[slot] = None;
                assert!(seen.is_some());
                seen
            } else {
                None
            }
        }
    }
}

fn next_choice(seed: &mut u64, choices: u64) -> u64 {
    *seed = seed.wrapping_mul(6_364_136_223_846_793_005).wrapping_add(1_442_695_040_888_963_407);
    (*seed >> 33) % choices
}

fn one_producer_one_consumer(indexing: Indexing, capacity: usize, n: u64, mut seed: u64) {
    let mut shared = shared(indexing, capacity);
    let mut producer = Producer::SawNothing;
    let mut consumer = Consumer::SawNothing;
    let mut offered = 0u64;
    let mut expected = 0u64;
    while expected < n {
        if next_choice(&mut seed, 2) == 0 {
            if offered < n && produce(&mut shared, &mut producer, offered) {
                offered += 1;
            }
        } else if let Some(got) = consume(&mut shared, &mut consumer) {
            assert_eq!(got, expected);
            expected += 1;
        }
        assert!(shared.start <= shared.end);
        assert!(shared.end <= shared.reserved);
        assert!(shared.reserved - shared.start <= capacity);
    }
    assert_eq!(offered, n);
    assert_eq!(shared.start, shared.reserved);
}

fn two_producers_two_consumers(indexing: Indexing, capacity: usize, n: u64, mut seed: u64) {
    let mut shared = shared(indexing, capacity);
    let mut producers = [Producer::SawNothing, Producer::SawNothing];
    let mut consumers = [Consumer::SawNothing, Consumer::SawNothing];
    let mut offered = [0u64, 0u64];
    let mut last_seen = [[None, None], [None, None]];
    let mut received = 0u64;
    let mut sum = 0u64;
    while received < n {
        let who = next_choice(&mut seed, 4) as usize;
        if who < 2 {
            let value = offered[who] * 2 + who as u64;
            if offered[who] < n / 2 && produce(&mut shared, &mut producers[who], value) {
                offered[who] += 1;
            }
        } else if let Some(got) = consume(&mut shared, &mut consumers[who - 2]) {
            let source = (got % 2) as usize;
            for consumer in 0..2 {
                if let Some(before) = last_seen[consumer][source] {
                    assert!(consumer != who - 2 || before < got);
                    assert_ne!(before, got);
                }
            }
            last_seen[who - 2][source] = Some(got);
            sum += got;
            received += 1;
        }
        assert!(shared.start <= shared.end);
        assert!(shared.end <= shared.reserved);
        assert!(shared.reserved - shared.start <= capacity);
    }
    assert_eq!(sum, (n - 1) * n / 2);
    assert_eq!(shared.start, shared.reserved);
}

#[test]
fn interleaved_steps_deliver_in_order() {
    for seed in 1..=20u64 {
        one_producer_one_consumer(Indexing::Modulo, 16, 20_000, seed);
        one_producer_one_consumer(Indexing::Modulo, 3, 5_000, seed);
        one_producer_one_consumer(Indexing::Mask, 16, 20_000, seed);
        one_producer_one_consumer(Indexing::Mask, 1, 2_000, seed);
    }
}

#[test]
fn interleaved_steps_lose_and_repeat_nothing() {
    for seed in 1..=20u64 {
        two_producers_two_consumers(Indexing::Modulo, 32, 20_000, seed);
        two_producers_two_consumers(Indexing::Modulo, 5, 6_000, seed);
        two_producers_two_consumers(Indexing::Mask, 32, 20_000, seed);
        two_producers_two_consumers(Indexing::Mask, 2, 4_000, seed);
    }
}
