//! Several threads at one buffer.
//!
//! When threads share a buffer, an insertion or a removal is no longer one
//! step. It is a handful of steps, each of which reads or changes one shared
//! thing, and between any two of them other threads take steps of their own.
//! This module writes those steps down as a transition system and proves
//! what every run of it keeps true: the positions stay in order, a claimed
//! position belongs to one thread only, every element kept lies in its slot,
//! and the elements handed out are the elements claimed, in the order of
//! their claims, each of them once.
//!
//! The thread that inserts reads `reserved`, reads `start`, claims the
//! position it read by moving `reserved` on if it is still there, writes its
//! element into the slot of that position, and then waits until `end` has
//! come up to its position to move it on. The thread that removes reads
//! `start`, reads `end`, reads the slot of the position it read, and takes
//! the element by moving `start` on if it is still there; if it is not, what
//! it read is dropped and it begins again.

use crate::fifo::{after_get, after_insert, get_result, insert_result};
use crate::indexing::{full_at, lemma_full_at, lemma_slots_differ, slot_of, Indexing};
use vstd::arithmetic::div_mod::lemma_mod_bound;
use vstd::prelude::*;

verus! {

/// Where a thread stands in what it is doing.
pub enum Thread<T> {
    /// Between two calls.
    Idle,
    /// Inserting `value`; about to read `reserved`.
    Offering { value: T },
    /// Inserting `value`; has read `reserved` and is about to read `start`.
    OfferSawReserved { value: T, reserved: nat },
    /// Inserting `value`; found the buffer not full and is about to claim
    /// `place`, which is where it saw `reserved`.
    Claiming { value: T, place: nat },
    /// Inserting `value`; has claimed `place` and is about to write its slot.
    Claimed { value: T, place: nat },
    /// Inserting `value`; has written it to the slot of `place` and is about
    /// to make it visible.
    Written { value: T, place: nat },
    /// Removing; about to read `start`.
    Asking,
    /// Removing; has read `start` and is about to read `end`.
    AskSawStart { start: nat },
    /// Removing; found the buffer not empty and is about to read the slot of
    /// `place`, which is where it saw `start`.
    Peeking { place: nat },
    /// Removing; has seen `seen` in the slot of `place` and is about to take
    /// it.
    Peeked { place: nat, seen: Option<T> },
}

/// Who claimed a position, and for which element.
pub struct Claim<T> {
    pub thread: int,
    pub value: T,
}

/// The shared buffer and the threads at it.
///
/// `claims` and `delivered` are not part of the buffer. They record what
/// happened, so that it can be said what a run has done.
pub struct System<T> {
    pub indexing: Indexing,
    pub capacity: nat,
    pub start: nat,
    pub end: nat,
    pub reserved: nat,
    pub slots: Seq<Option<T>>,
    pub threads: Seq<Thread<T>>,
    /// For every position claimed so far, who claimed it and for what.
    pub claims: Seq<Claim<T>>,
    /// Every element handed out so far, in the order of handing out.
    pub delivered: Seq<T>,
}

/// What a thread is asked to do when it is idle.
pub enum Call<T> {
    Insert(T),
    Get,
}

/// What a step gave back to the caller of the thread that took it, if the
/// step ended a call.
pub enum Outcome<T> {
    /// The call goes on.
    Pending,
    /// An insertion ended.
    Inserted(Result<(), T>),
    /// A removal ended.
    Got(Option<T>),
}

impl<T> System<T> {
    /// An empty buffer with `threads` idle threads at it.
    pub open spec fn init(indexing: Indexing, capacity: nat, threads: nat) -> System<T> {
        System {
            indexing,
            capacity,
            start: 0,
            end: 0,
            reserved: 0,
            slots: Seq::new(capacity, |i: int| None),
            threads: Seq::new(threads, |i: int| Thread::Idle),
            claims: Seq::empty(),
            delivered: Seq::empty(),
        }
    }

    /// The slot of position `p`.
    pub open spec fn slot(self, p: nat) -> int {
        slot_of(p as int, self.capacity as int)
    }

    /// The same system with thread `t` standing at `thread`.
    pub open spec fn with_thread(self, t: int, thread: Thread<T>) -> System<T> {
        System { threads: self.threads.update(t, thread), ..self }
    }

    /// The elements made visible so far, in the order of their positions.
    pub open spec fn published(self) -> Seq<T> {
        self.claimed().take(self.end as int)
    }

    /// The elements claimed so far, in the order of their positions.
    pub open spec fn claimed(self) -> Seq<T> {
        Seq::new(self.claims.len(), |p: int| self.claims[p].value)
    }

    /// The elements kept: made visible and not yet handed out.
    pub open spec fn kept(self) -> Seq<T> {
        Seq::new((self.end - self.start) as nat, |i: int| self.claims[self.start + i].value)
    }

    /// Whether a thread that saw `reserved` at `reserved` and now reads
    /// `start` finds the buffer full.
    pub open spec fn finds_full(self, reserved: nat) -> bool {
        full_at(self.indexing, self.start as int, reserved as int, self.capacity as int)
    }

    /// The system after thread `t` has taken its next step. Every step reads
    /// or changes one shared thing. An idle thread begins `call`. A step
    /// that moves a position on only if it is still where the thread saw it
    /// may fail though it is (`falter`), as a weak exchange may.
    pub open spec fn step(self, t: int, call: Call<T>, falter: bool) -> System<T> {
        match self.threads[t] {
            Thread::Idle => match call {
                Call::Insert(value) => self.with_thread(t, Thread::Offering { value }),
                Call::Get => self.with_thread(t, Thread::Asking),
            },
            Thread::Offering { value } => self.with_thread(
                t,
                Thread::OfferSawReserved { value, reserved: self.reserved },
            ),
            Thread::OfferSawReserved { value, reserved } => if self.finds_full(reserved) {
                self.with_thread(t, Thread::Idle)
            } else {
                self.with_thread(t, Thread::Claiming { value, place: reserved })
            },
            Thread::Claiming { value, place } => if self.reserved == place && !falter {
                System {
                    reserved: place + 1,
                    claims: self.claims.push(Claim { thread: t, value }),
                    ..self.with_thread(t, Thread::Claimed { value, place })
                }
            } else {
                self.with_thread(t, Thread::Offering { value })
            },
            Thread::Claimed { value, place } => System {
                slots: self.slots.update(self.slot(place), Some(value)),
                ..self.with_thread(t, Thread::Written { value, place })
            },
            Thread::Written { value, place } => if self.end == place && !falter {
                System { end: place + 1, ..self.with_thread(t, Thread::Idle) }
            } else {
                self
            },
            Thread::Asking => self.with_thread(t, Thread::AskSawStart { start: self.start }),
            Thread::AskSawStart { start } => if start == self.end {
                self.with_thread(t, Thread::Idle)
            } else {
                self.with_thread(t, Thread::Peeking { place: start })
            },
            Thread::Peeking { place } => self.with_thread(
                t,
                Thread::Peeked { place, seen: self.in_slot(place) },
            ),
            Thread::Peeked { place, seen } => if self.start == place && !falter {
                System {
                    start: place + 1,
                    delivered: self.delivered.push(seen->0),
                    ..self.with_thread(t, Thread::Idle)
                }
            } else {
                self.with_thread(t, Thread::Asking)
            },
        }
    }

    /// What the step that `step` describes gives back to the caller of
    /// thread `t`.
    pub open spec fn outcome(self, t: int, falter: bool) -> Outcome<T> {
        match self.threads[t] {
            Thread::OfferSawReserved { value, reserved } => if self.finds_full(reserved) {
                Outcome::Inserted(Err(value))
            } else {
                Outcome::Pending
            },
            Thread::Written { value, place } => if self.end == place && !falter {
                Outcome::Inserted(Ok(()))
            } else {
                Outcome::Pending
            },
            Thread::AskSawStart { start } => if start == self.end {
                Outcome::Got(None)
            } else {
                Outcome::Pending
            },
            Thread::Peeked { place, seen } => if self.start == place && !falter {
                Outcome::Got(seen)
            } else {
                Outcome::Pending
            },
            _ => Outcome::Pending,
        }
    }

    /// What holds of what thread `t` remembers: a position that it read
    /// has not been passed in the wrong direction; if the position it means
    /// to move is still where it saw it, the move is in order; and what it
    /// claimed is recorded as its own.
    pub open spec fn thread_inv(self, t: int) -> bool {
        match self.threads[t] {
            Thread::Idle => true,
            Thread::Offering { value } => true,
            Thread::OfferSawReserved { value, reserved } => reserved <= self.reserved,
            Thread::Claiming { value, place } => {
                &&& place <= self.reserved
                &&& self.reserved == place ==> place < self.start + self.capacity
            },
            Thread::Claimed { value, place } => {
                &&& self.end <= place < self.reserved
                &&& self.claims[place as int] == Claim { thread: t, value }
            },
            Thread::Written { value, place } => {
                &&& self.end <= place < self.reserved
                &&& self.claims[place as int] == Claim { thread: t, value }
                &&& self.in_slot(place) == Some(value)
            },
            Thread::Asking => true,
            Thread::AskSawStart { start } => start <= self.start,
            Thread::Peeking { place } => {
                &&& place <= self.start
                &&& self.start == place ==> place < self.end
            },
            Thread::Peeked { place, seen } => {
                &&& place <= self.start
                &&& self.start == place ==> place < self.end && seen == Some(
                    self.claims[place as int].value,
                )
            },
        }
    }

    /// Thread `t` has claimed position `p` and has not yet made it visible.
    pub open spec fn holds(self, t: int, p: nat) -> bool {
        match self.threads[t] {
            Thread::Claimed { value, place } => place == p,
            Thread::Written { value, place } => place == p,
            _ => false,
        }
    }

    /// What holds of the buffer and of the record of what happened: the
    /// positions are in order and no more than `capacity` of them are in use;
    /// every element handed out is the element claimed for its position;
    /// every element kept lies in the slot of its position; and every
    /// position claimed and not yet visible is held by the thread that
    /// claimed it.
    pub open spec fn shared_inv(self) -> bool {
        &&& self.slots.len() == self.capacity
        &&& self.indexing == Indexing::Mask ==> self.capacity > 0
        &&& self.start <= self.end <= self.reserved <= self.start + self.capacity
        &&& self.claims.len() == self.reserved
        &&& self.delivered.len() == self.start
        &&& forall|p: int|
            0 <= p < self.start ==> #[trigger] self.delivered[p] == self.claims[p].value
        &&& forall|p: nat|
            self.start <= p < self.end ==> #[trigger] self.in_slot(p) == Some(
                self.claims[p as int].value,
            )
        &&& forall|p: nat| self.end <= p < self.reserved ==> #[trigger] self.owned(p)
    }

    /// What every run keeps true.
    pub open spec fn inv(self) -> bool {
        &&& self.shared_inv()
        &&& forall|t: int| 0 <= t < self.threads.len() ==> #[trigger] self.thread_inv(t)
    }

    /// What the slot of position `p` holds.
    pub open spec fn in_slot(self, p: nat) -> Option<T> {
        self.slots[self.slot(p)]
    }

    /// Position `p` is held by the thread that claimed it.
    pub open spec fn owned(self, p: nat) -> bool {
        &&& 0 <= self.claims[p as int].thread < self.threads.len()
        &&& self.holds(self.claims[p as int].thread, p)
    }

    /// An empty buffer with idle threads at it is in order.
    pub proof fn lemma_init_inv(indexing: Indexing, capacity: nat, threads: nat)
        requires
            indexing == Indexing::Mask ==> capacity > 0,
        ensures
            Self::init(indexing, capacity, threads).inv(),
    {
    }

    /// A step of any thread, at any moment, keeps the system in order.
    pub proof fn lemma_step_inv(self, t: int, call: Call<T>, falter: bool)
        requires
            self.inv(),
            0 <= t < self.threads.len(),
        ensures
            self.step(t, call, falter).inv(),
    {
        let next = self.step(t, call, falter);
        assert(self.thread_inv(t));
        assert forall|u: int| 0 <= u < next.threads.len() implies #[trigger] next.thread_inv(u) by {
            assert(self.thread_inv(u));
            self.lemma_step_thread(t, call, falter, u);
        }
        self.lemma_step_shared(t, call, falter);
    }

    /// Two positions in use at the same time fall on different slots.
    proof fn lemma_in_use_apart(self, p: nat, q: nat)
        requires
            self.shared_inv(),
            self.start <= p < q < self.reserved,
        ensures
            self.slot(p) != self.slot(q),
            0 <= self.slot(p) < self.capacity,
            0 <= self.slot(q) < self.capacity,
    {
        lemma_slots_differ(p as int, q as int, self.capacity as int);
        lemma_mod_bound(p as int, self.capacity as int);
        lemma_mod_bound(q as int, self.capacity as int);
    }

    proof fn lemma_step_thread(self, t: int, call: Call<T>, falter: bool, u: int)
        requires
            self.inv(),
            0 <= t < self.threads.len(),
            0 <= u < self.threads.len(),
        ensures
            self.step(t, call, falter).thread_inv(u),
    {
        let next = self.step(t, call, falter);
        assert(self.thread_inv(t));
        assert(self.thread_inv(u));
        match self.threads[t] {
            Thread::OfferSawReserved { value, reserved } => {
                if self.capacity > 0 && self.reserved == reserved {
                    lemma_full_at(
                        self.indexing,
                        self.start as int,
                        reserved as int,
                        self.capacity as int,
                    );
                }
            },
            Thread::Claimed { value, place } => {
                lemma_mod_bound(place as int, self.capacity as int);
                if u != t && self.threads[u] is Written {
                    self.lemma_holders_apart(t, u, place, self.threads[u]->Written_place);
                }
            },
            Thread::Peeking { place } => {
                if self.start == place {
                    assert(self.in_slot(place) == Some(self.claims[place as int].value));
                }
            },
            _ => {},
        }
    }

    proof fn lemma_step_shared(self, t: int, call: Call<T>, falter: bool)
        requires
            self.inv(),
            0 <= t < self.threads.len(),
        ensures
            self.step(t, call, falter).shared_inv(),
    {
        let next = self.step(t, call, falter);
        assert(self.thread_inv(t));
        assert forall|p: nat| next.end <= p < next.reserved implies #[trigger] next.owned(p) by {
            if p < self.reserved {
                assert(self.owned(p));
            }
        }
        assert forall|p: nat| next.start <= p < next.end implies #[trigger] next.in_slot(p) == Some(
            next.claims[p as int].value,
        ) by {
            if p < self.end {
                assert(self.in_slot(p) == Some(self.claims[p as int].value));
                if let Thread::Claimed { value, place } = self.threads[t] {
                    self.lemma_in_use_apart(p, place);
                }
            }
        }
    }

    /// A position is held by one thread at most.
    pub proof fn lemma_one_holder(self, t: int, u: int, p: nat)
        requires
            self.inv(),
            0 <= t < self.threads.len(),
            0 <= u < self.threads.len(),
            self.holds(t, p),
            self.holds(u, p),
        ensures
            t == u,
    {
        assert(self.thread_inv(t));
        assert(self.thread_inv(u));
    }

    /// Two threads that each hold a position write to different slots.
    pub proof fn lemma_holders_apart(self, t: int, u: int, p: nat, q: nat)
        requires
            self.inv(),
            0 <= t < self.threads.len(),
            0 <= u < self.threads.len(),
            t != u,
            self.holds(t, p),
            self.holds(u, q),
        ensures
            self.slot(p) != self.slot(q),
    {
        assert(self.thread_inv(t));
        assert(self.thread_inv(u));
        if p < q {
            self.lemma_in_use_apart(p, q);
        } else {
            self.lemma_in_use_apart(q, p);
        }
    }

    /// What has been handed out and what is kept are together what has been
    /// made visible, which is what was claimed for the first positions:
    /// nothing is lost, nothing comes twice, and the order is that of the
    /// claims. Once every position claimed has been handed out, what came
    /// out is all that went in.
    pub proof fn lemma_nothing_lost(self)
        requires
            self.inv(),
        ensures
            self.delivered == self.claimed().take(self.start as int),
            self.delivered + self.kept() == self.published(),
            self.start == self.reserved ==> self.delivered == self.claimed(),
    {
        assert(self.delivered =~= self.claimed().take(self.start as int));
        assert(self.delivered + self.kept() =~= self.published());
        assert(self.claimed().take(self.reserved as int) =~= self.claimed());
    }

    /// The oldest claim is never held up by another thread: the thread that
    /// holds position `end` writes its slot, if it has not yet, and makes
    /// it visible with the steps it takes next, wherever the other threads
    /// stand.
    pub proof fn lemma_oldest_claim_goes_through(self, call: Call<T>)
        requires
            self.inv(),
            self.end < self.reserved,
        ensures
            ({
                let t = self.claims[self.end as int].thread;
                let once = self.step(t, call, false);
                let twice = once.step(t, call, false);
                &&& 0 <= t < self.threads.len()
                &&& self.holds(t, self.end)
                &&& self.threads[t] is Written ==> once.end == self.end + 1
                &&& self.threads[t] is Claimed ==> once.end == self.end && twice.end == self.end
                    + 1
            }),
    {
        assert(self.owned(self.end));
    }

    /// What a step does to the elements kept, and what it gives back.
    ///
    /// A removal that ends gives back what the queue of the elements kept
    /// answers and leaves what that queue becomes. An insertion that ends
    /// with success has added its element as the newest. An insertion that
    /// is refused hands back its own element and changes nothing; by
    /// division it is refused only when every slot is claimed. No other
    /// step changes the elements kept.
    pub proof fn lemma_step_outcome(self, t: int, call: Call<T>, falter: bool)
        requires
            self.inv(),
            0 <= t < self.threads.len(),
        ensures
            match self.outcome(t, falter) {
                Outcome::Pending => self.step(t, call, falter).kept() == self.kept(),
                Outcome::Got(answer) => {
                    &&& self.threads[t] is AskSawStart || self.threads[t] is Peeked
                    &&& answer == get_result(self.kept())
                    &&& self.step(t, call, falter).kept() == after_get(self.kept())
                },
                Outcome::Inserted(Ok(())) => {
                    &&& self.threads[t] is Written
                    &&& insert_result(
                        self.kept(),
                        self.capacity,
                        self.threads[t]->Written_value,
                    ) == Ok::<(), T>(())
                    &&& self.step(t, call, falter).kept() == after_insert(
                        self.kept(),
                        self.capacity,
                        self.threads[t]->Written_value,
                    )
                },
                Outcome::Inserted(Err(back)) => {
                    &&& self.threads[t] is OfferSawReserved
                    &&& back == self.threads[t]->OfferSawReserved_value
                    &&& self.step(t, call, falter).kept() == self.kept()
                    &&& self.indexing == Indexing::Modulo ==> self.reserved - self.start
                        == self.capacity
                },
            },
    {
        let next = self.step(t, call, falter);
        assert(self.thread_inv(t));
        match self.outcome(t, falter) {
            Outcome::Pending => {
                assert(next.kept() =~= self.kept());
            },
            Outcome::Got(answer) => {
                assert(next.kept() =~= after_get(self.kept()));
            },
            Outcome::Inserted(Ok(())) => {
                assert(next.kept() =~= self.kept().push(self.threads[t]->Written_value));
            },
            Outcome::Inserted(Err(back)) => {
                assert(next.kept() =~= self.kept());
            },
        }
    }
}

/// One step of a run: which thread takes it, what the thread is asked to do
/// if it is idle, and whether a weak exchange fails without cause.
pub struct Move<T> {
    pub thread: int,
    pub call: Call<T>,
    pub falter: bool,
}

impl<T> System<T> {
    /// The system after the steps of `moves`, in their order.
    pub open spec fn run(self, moves: Seq<Move<T>>) -> System<T>
        decreases moves.len(),
    {
        if moves.len() == 0 {
            self
        } else {
            let m = moves.last();
            self.run(moves.drop_last()).step(m.thread, m.call, m.falter)
        }
    }

    /// However the steps of the threads fall among each other, the system
    /// stays in order.
    pub proof fn lemma_run_inv(self, moves: Seq<Move<T>>)
        requires
            self.inv(),
            forall|i: int| 0 <= i < moves.len() ==> 0 <= (#[trigger] moves[i]).thread
                < self.threads.len(),
        ensures
            self.run(moves).inv(),
            self.run(moves).threads.len() == self.threads.len(),
        decreases moves.len(),
    {
        if moves.len() > 0 {
            let m = moves.last();
            let before = moves.drop_last();
            assert forall|i: int| 0 <= i < before.len() implies 0 <= (#[trigger] before[i]).thread
                < self.threads.len() by {
                assert(before[i] == moves[i]);
            }
            self.lemma_run_inv(before);
            self.run(before).lemma_step_inv(m.thread, m.call, m.falter);
        }
    }

    /// After any run at a buffer that began empty, the elements handed out
    /// are the elements claimed for the first positions, position by
    /// position: every element that came out went in, none came out twice,
    /// and they came out in the order in which their positions were claimed.
    /// If nothing claimed is left in the buffer, what came out is all that
    /// went in.
    pub proof fn lemma_run_delivers_in_claim_order(
        indexing: Indexing,
        capacity: nat,
        threads: nat,
        moves: Seq<Move<T>>,
    )
        requires
            indexing == Indexing::Mask ==> capacity > 0,
            forall|i: int| 0 <= i < moves.len() ==> 0 <= (#[trigger] moves[i]).thread < threads,
        ensures
            ({
                let s = Self::init(indexing, capacity, threads).run(moves);
                &&& s.start <= s.end <= s.reserved <= s.start + capacity
                &&& s.delivered == s.claimed().take(s.start as int)
                &&& s.delivered + s.kept() == s.claimed().take(s.end as int)
                &&& s.start == s.reserved ==> s.delivered == s.claimed()
            }),
    {
        let begin = Self::init(indexing, capacity, threads);
        Self::lemma_init_inv(indexing, capacity, threads);
        begin.lemma_run_inv(moves);
        begin.lemma_run_shape(moves);
        begin.run(moves).lemma_nothing_lost();
    }

    /// A run changes neither the capacity nor the number of threads.
    proof fn lemma_run_shape(self, moves: Seq<Move<T>>)
        ensures
            self.run(moves).capacity == self.capacity,
            self.run(moves).indexing == self.indexing,
        decreases moves.len(),
    {
        if moves.len() > 0 {
            self.lemma_run_shape(moves.drop_last());
        }
    }

    /// The system after thread `t` has taken `n` steps in a row, none of
    /// which faltered, while every other thread stood still.
    pub open spec fn undisturbed(self, t: int, call: Call<T>, n: nat) -> System<T>
        decreases n,
    {
        if n == 0 {
            self
        } else {
            self.undisturbed(t, call, (n - 1) as nat).step(t, call, false)
        }
    }

    /// An insertion that no other thread disturbs, at a buffer where no
    /// claim is open, does what the queue of the elements kept does: it is
    /// refused after three steps if the queue is full, and has added its
    /// element after six steps if it is not.
    pub proof fn lemma_insert_undisturbed(self, t: int, v: T)
        requires
            self.inv(),
            0 <= t < self.threads.len(),
            self.threads[t] is Idle,
            self.end == self.reserved,
        ensures
            ({
                let n: nat = if self.kept().len() < self.capacity {
                    6
                } else {
                    3
                };
                let last = self.undisturbed(t, Call::Insert(v), (n - 1) as nat);
                let after = self.undisturbed(t, Call::Insert(v), n);
                &&& last.outcome(t, false) == Outcome::Inserted(
                    insert_result(self.kept(), self.capacity, v),
                )
                &&& after.kept() == after_insert(self.kept(), self.capacity, v)
                &&& after.threads[t] is Idle
                &&& after.end == after.reserved
                &&& after.inv()
            }),
    {
        let call = Call::Insert(v);
        let s0 = self;
        let s1 = s0.undisturbed(t, call, 1);
        assert(s0.undisturbed(t, call, 0) == s0);
        assert(s1 == s0.step(t, call, false));
        let s2 = s0.undisturbed(t, call, 2);
        assert(s2 == s1.step(t, call, false));
        let s3 = s0.undisturbed(t, call, 3);
        assert(s3 == s2.step(t, call, false));
        s0.lemma_step_inv(t, call, false);
        s1.lemma_step_inv(t, call, false);
        s2.lemma_step_inv(t, call, false);
        if s0.capacity > 0 {
            lemma_full_at(
                s0.indexing,
                s0.start as int,
                s0.reserved as int,
                s0.capacity as int,
            );
        }
        assert(s3.kept() =~= s0.kept()) by {
            assert(s3.claims == s0.claims || s3.claims == s0.claims.push(Claim { thread: t, value: v }));
        }
        if s0.kept().len() < s0.capacity {
            let s4 = s0.undisturbed(t, call, 4);
            assert(s4 == s3.step(t, call, false));
            let s5 = s0.undisturbed(t, call, 5);
            assert(s5 == s4.step(t, call, false));
            let s6 = s0.undisturbed(t, call, 6);
            assert(s6 == s5.step(t, call, false));
            s3.lemma_step_inv(t, call, false);
            s4.lemma_step_inv(t, call, false);
            s5.lemma_step_inv(t, call, false);
            assert(s6.kept() =~= s0.kept().push(v));
        }
    }

    /// A removal that no other thread disturbs does what the queue of the
    /// elements kept does: it answers `None` after three steps if the queue
    /// is empty, and has taken the oldest element after five steps if it is
    /// not.
    pub proof fn lemma_get_undisturbed(self, t: int)
        requires
            self.inv(),
            0 <= t < self.threads.len(),
            self.threads[t] is Idle,
        ensures
            ({
                let n: nat = if self.kept().len() > 0 {
                    5
                } else {
                    3
                };
                let last = self.undisturbed(t, Call::Get, (n - 1) as nat);
                let after = self.undisturbed(t, Call::Get, n);
                &&& last.outcome(t, false) == Outcome::Got(get_result(self.kept()))
                &&& after.kept() == after_get(self.kept())
                &&& after.threads[t] is Idle
                &&& after.inv()
            }),
    {
        let call = Call::<T>::Get;
        let s0 = self;
        let s1 = s0.undisturbed(t, call, 1);
        assert(s0.undisturbed(t, call, 0) == s0);
        assert(s1 == s0.step(t, call, false));
        let s2 = s0.undisturbed(t, call, 2);
        assert(s2 == s1.step(t, call, false));
        let s3 = s0.undisturbed(t, call, 3);
        assert(s3 == s2.step(t, call, false));
        s0.lemma_step_inv(t, call, false);
        s1.lemma_step_inv(t, call, false);
        s2.lemma_step_inv(t, call, false);
        assert(s3.kept() =~= s0.kept());
        if s0.kept().len() > 0 {
            let s4 = s0.undisturbed(t, call, 4);
            assert(s4 == s3.step(t, call, false));
            let s5 = s0.undisturbed(t, call, 5);
            assert(s5 == s4.step(t, call, false));
            s3.lemma_step_inv(t, call, false);
            s4.lemma_step_inv(t, call, false);
            assert(s0.in_slot(s0.start) == Some(s0.claims[s0.start as int].value));
            assert(s5.kept() =~= s0.kept().drop_first());
        }
    }
}

} // verus!
