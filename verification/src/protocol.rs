//! What one attempt to insert or to remove comes to, once the positions have
//! been read.
//!
//! An attempt reads two positions, decides, and then acts on what was
//! decided: an insertion claims a position, writes its slot and makes it
//! visible; a removal takes the element of a position out of its slot. The
//! decisions are made here. They depend on nothing but the positions read,
//! so they serve a buffer with one owner and a buffer that several threads
//! share alike.

use crate::indexing::{full_at, slot_of, Indexer, Indexing};
use vstd::prelude::*;

verus! {

/// What an insertion is to do.
#[derive(Clone, Copy, Debug, PartialEq, Eq, Structural)]
pub enum InsertPlan {
    /// Every slot is taken: hand the element back.
    Full,
    /// Claim position `place` by moving the next free position on to
    /// `next`, write the element to `slot`, then make it visible by moving
    /// the end of the elements kept from `place` to `next`.
    Claim { place: usize, next: usize, slot: usize },
}

/// What a removal is to do.
#[derive(Clone, Copy, Debug, PartialEq, Eq, Structural)]
pub enum GetPlan {
    /// Nothing is kept: there is no element to hand out.
    Empty,
    /// Hand out the element of position `place`, which lies in `slot`, by
    /// moving the start of the elements kept on to `next`.
    Take { place: usize, next: usize, slot: usize },
}

/// The plan of an insertion that has read `start` and `reserved`.
pub open spec fn insert_plan(indexing: Indexing, start: int, reserved: int, capacity: int)
    -> InsertPlan {
    if full_at(indexing, start, reserved, capacity) {
        InsertPlan::Full
    } else {
        InsertPlan::Claim {
            place: reserved as usize,
            next: (reserved + 1) as usize,
            slot: slot_of(reserved, capacity) as usize,
        }
    }
}

/// The plan of a removal that has read `start` and `end`.
pub open spec fn get_plan(start: int, end: int, capacity: int) -> GetPlan {
    if start == end {
        GetPlan::Empty
    } else {
        GetPlan::Take {
            place: start as usize,
            next: (start + 1) as usize,
            slot: slot_of(start, capacity) as usize,
        }
    }
}

impl Indexer {
    /// Plans an insertion from the positions read. Unless the buffer is
    /// full, there must be a slot to write to and a position after
    /// `reserved`.
    pub fn plan_insert(&self, start: usize, reserved: usize) -> (plan: InsertPlan)
        requires
            self.wf(),
            !full_at(self.indexing(), start as int, reserved as int, self.capacity())
                ==> self.capacity() > 0 && reserved < usize::MAX,
        ensures
            plan == insert_plan(self.indexing(), start as int, reserved as int, self.capacity()),
    {
        if self.is_full(start, reserved) {
            InsertPlan::Full
        } else {
            InsertPlan::Claim { place: reserved, next: reserved + 1, slot: self.slot(reserved) }
        }
    }

    /// Plans a removal from the positions read. Unless the buffer is empty,
    /// there must be a slot to read from and a position after `start`.
    pub fn plan_get(&self, start: usize, end: usize) -> (plan: GetPlan)
        requires
            self.wf(),
            start != end ==> self.capacity() > 0 && start < usize::MAX,
        ensures
            plan == get_plan(start as int, end as int, self.capacity()),
    {
        if start == end {
            GetPlan::Empty
        } else {
            GetPlan::Take { place: start, next: start + 1, slot: self.slot(start) }
        }
    }
}

} // verus!
