//! The ring buffer: a queue of at most `N` elements kept in `N` slots that
//! are used round and round.

use crate::fifo::{after_get, after_insert, get_result, insert_result};
use crate::indexing::{
    is_power_of_two, lemma_full_at, lemma_slots_differ, slot_of, Indexer, Indexing,
};
use crate::protocol::{GetPlan, InsertPlan};
use vstd::arithmetic::div_mod::lemma_mod_add_multiples_vanish;
use vstd::prelude::*;

verus! {

/// `core::array::from_fn`: the array whose element at each index is what `f`
/// returned for that index. `f` is called once for every index below `N`, so
/// it must accept each of them.
pub assume_specification<T, const N: usize, F>[ core::array::from_fn::<T, N, F> ](f: F) -> (array:
    [T; N]) where F: FnMut(usize) -> T
    requires
        forall|i: usize| i < N ==> call_requires(f, (i,)),
    ensures
        forall|i: int| 0 <= i < N ==> call_ensures(f, (i as usize,), #[trigger] array@[i]),
;

/// A slot that holds nothing.
fn vacant<T>(_index: usize) -> (slot: Option<T>)
    ensures
        slot is None,
{
    None
}

/// A queue of at most `N` elements.
///
/// Three positions, which only grow, divide the positions into those whose
/// element was handed out (below `start`), those whose element is kept (from
/// `start` up to `end`), those claimed for an element that is not yet
/// visible (from `end` up to `reserved`) and those still free. The element of
/// a position is kept in the slot that the position falls on.
pub struct RingBuffer<T, const N: usize> {
    /// The position of the oldest element kept.
    start: usize,
    /// The position after the newest element kept.
    end: usize,
    /// The next position that nobody has claimed.
    reserved: usize,
    indexer: Indexer,
    data: [Option<T>; N],
}

impl<T, const N: usize> View for RingBuffer<T, N> {
    type V = Seq<T>;

    /// The elements kept, oldest first.
    closed spec fn view(&self) -> Seq<T> {
        Seq::new((self.end - self.start) as nat, |i: int| self.kept(self.start + i)->0)
    }
}

impl<T, const N: usize> RingBuffer<T, N> {
    /// The positions are in order, no more than `N` of them are in use, no
    /// claim is left open, every position in use has its element in its
    /// slot, and every other slot holds nothing.
    pub closed spec fn wf(&self) -> bool {
        &&& self.start <= self.end <= self.reserved
        &&& self.reserved - self.start <= N
        &&& self.end == self.reserved
        &&& self.indexer.wf()
        &&& self.indexer.capacity() == N
        &&& forall|p: int| self.start <= p < self.end ==> #[trigger] self.kept(p) is Some
        &&& forall|p: int| self.end <= p < self.start + N ==> #[trigger] self.kept(p) is None
    }

    /// What the slot of position `p` holds.
    spec fn kept(&self, p: int) -> Option<T> {
        self.data@[slot_of(p, N as int)]
    }

    /// The way positions are turned into slots.
    pub closed spec fn indexing(&self) -> Indexing {
        self.indexer.indexing()
    }

    /// How many elements were ever taken in.
    pub closed spec fn inserted(&self) -> nat {
        self.reserved as nat
    }

    /// How many elements were ever handed out.
    pub closed spec fn removed(&self) -> nat {
        self.start as nat
    }

    /// No more than `N` elements are kept, and they are those taken in and
    /// not yet handed out.
    pub proof fn lemma_counts(&self)
        requires
            self.wf(),
        ensures
            self@.len() <= N,
            self.removed() + self@.len() == self.inserted(),
    {
    }

    /// An empty buffer that indexes by division, as any capacity allows.
    pub fn new() -> (r: Self)
        ensures
            r.wf(),
            r@ == Seq::<T>::empty(),
            r.inserted() == 0,
            r.removed() == 0,
            r.indexing() == Indexing::Modulo,
    {
        Self::with_indexing(Indexing::Modulo)
    }

    /// An empty buffer that indexes in the given way. Indexing by mask needs
    /// a capacity that is a power of two.
    pub fn with_indexing(indexing: Indexing) -> (r: Self)
        requires
            indexing == Indexing::Mask ==> is_power_of_two(N as int),
        ensures
            r.wf(),
            r@ == Seq::<T>::empty(),
            r.inserted() == 0,
            r.removed() == 0,
            r.indexing() == indexing,
    {
        let r = RingBuffer {
            start: 0,
            end: 0,
            reserved: 0,
            indexer: Indexer::new(indexing, N).unwrap(),
            data: core::array::from_fn(vacant),
        };
        assert(r@ =~= Seq::<T>::empty());
        r
    }

    /// Offers `v` to the queue. It is taken as the newest element if fewer
    /// than `N` are kept; otherwise it comes back and nothing changes.
    ///
    /// The count of elements ever taken in must have room to grow.
    pub fn try_insert(&mut self, v: T) -> (r: Result<(), T>)
        requires
            old(self).wf(),
            old(self)@.len() < N ==> old(self).inserted() < usize::MAX,
        ensures
            final(self).wf(),
            r == insert_result(old(self)@, N as nat, v),
            final(self)@ == after_insert(old(self)@, N as nat, v),
            final(self).inserted() == old(self).inserted() + if r is Ok { 1nat } else { 0nat },
            final(self).removed() == old(self).removed(),
            final(self).indexing() == old(self).indexing(),
    {
        proof {
            self.indexer.lemma_capacity();
            if N > 0 {
                lemma_full_at(
                    self.indexer.indexing(),
                    self.start as int,
                    self.reserved as int,
                    N as int,
                );
            }
        }
        match self.indexer.plan_insert(self.start, self.reserved) {
            InsertPlan::Full => Err(v),
            InsertPlan::Claim { place, next, slot } => {
                self.reserved = next;
                self.data[slot] = Some(v);
                self.end = next;
                proof {
                    assert forall|p: int| self.start <= p < place implies #[trigger] self.kept(p)
                        == old(self).kept(p) by {
                        lemma_slots_differ(p, place as int, N as int);
                    }
                    assert forall|p: int| next <= p < self.start + N implies #[trigger] self.kept(
                        p,
                    ) is None by {
                        lemma_slots_differ(place as int, p, N as int);
                        assert(old(self).kept(p) is None);
                    }
                    assert(self@ =~= old(self)@.push(v));
                }
                Ok(())
            },
        }
    }

    /// Asks the queue for its oldest element. It is handed out and leaves
    /// the queue; an empty queue answers `None` and nothing changes.
    pub fn try_get(&mut self) -> (r: Option<T>)
        requires
            old(self).wf(),
        ensures
            final(self).wf(),
            r == get_result(old(self)@),
            final(self)@ == after_get(old(self)@),
            final(self).inserted() == old(self).inserted(),
            final(self).removed() == old(self).removed() + if r is Some { 1nat } else { 0nat },
            final(self).indexing() == old(self).indexing(),
    {
        match self.indexer.plan_get(self.start, self.end) {
            GetPlan::Empty => None,
            GetPlan::Take { place, next, slot } => {
                let value = self.data[slot].take();
                self.start = next;
                proof {
                    assert(old(self).kept(place as int) is Some);
                    assert forall|p: int| next <= p < self.end implies #[trigger] self.kept(p)
                        == old(self).kept(p) by {
                        lemma_slots_differ(place as int, p, N as int);
                    }
                    assert forall|p: int| self.end <= p < next + N implies #[trigger] self.kept(
                        p,
                    ) is None by {
                        if p < place + N {
                            lemma_slots_differ(place as int, p, N as int);
                            assert(old(self).kept(p) is None);
                        } else {
                            lemma_mod_add_multiples_vanish(place as int, N as int);
                        }
                    }
                    assert(self@ =~= old(self)@.drop_first());
                }
                value
            },
        }
    }
}

} // verus!
