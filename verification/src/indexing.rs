//! Logical positions and the slots they fall on.
//!
//! A position is a counter that only grows. The slot it falls on is its
//! remainder by the capacity, and its lap is the number of times it has gone
//! round the storage. Two ways of computing both are offered: by division,
//! for any capacity, and by mask and shift, for capacities that are powers of
//! two. They give the same answers, which is proved here.

use vstd::arithmetic::div_mod::{
    lemma_div_plus_one, lemma_fundamental_div_mod, lemma_mod_add_multiples_vanish,
};
use vstd::arithmetic::power2::{
    lemma2_to64, lemma2_to64_rest, lemma_pow2_pos, lemma_pow2_strictly_increases, pow2,
};
use vstd::bits::{
    lemma_usize_low_bits_mask_is_mod, lemma_usize_pow2_no_overflow, lemma_usize_shl_is_mul,
    lemma_usize_shr_is_div,
};
use vstd::prelude::*;

verus! {

/// The slot that position `pos` falls on in storage of `capacity` slots.
pub open spec fn slot_of(pos: int, capacity: int) -> int {
    pos % capacity
}

/// How many times position `pos` has gone round storage of `capacity` slots.
pub open spec fn lap_of(pos: int, capacity: int) -> int {
    pos / capacity
}

/// `n` is 1, 2, 4, 8, ...
pub open spec fn is_power_of_two(n: int) -> bool {
    exists|e: nat| n == pow2(e)
}

/// Two positions less than `capacity` apart fall on different slots.
pub proof fn lemma_slots_differ(a: int, b: int, capacity: int)
    requires
        a < b < a + capacity,
    ensures
        slot_of(a, capacity) != slot_of(b, capacity),
{
    lemma_fundamental_div_mod(a, capacity);
    lemma_fundamental_div_mod(b, capacity);
    if a % capacity == b % capacity {
        let k = b / capacity - a / capacity;
        assert(b - a == capacity * k) by (nonlinear_arith)
            requires
                a == capacity * (a / capacity) + a % capacity,
                b == capacity * (b / capacity) + b % capacity,
                a % capacity == b % capacity,
                k == b / capacity - a / capacity,
        ;
        assert(false) by (nonlinear_arith)
            requires
                0 < capacity * k < capacity,
        ;
    }
}

/// The exponent `e` with `n == 2^e`, if `n` is a power of two.
pub fn power_of_two_exponent(n: usize) -> (r: Option<u32>)
    ensures
        r is Some <==> is_power_of_two(n as int),
        r matches Some(e) ==> e < usize::BITS && n == pow2(e as nat),
{
    let mut e: u32 = 0;
    while e < usize::BITS
        invariant
            e <= usize::BITS,
            forall|k: nat| k < e ==> n != pow2(k),
        decreases usize::BITS - e,
    {
        proof {
            lemma_usize_pow2_no_overflow(e as nat);
            lemma_usize_shl_is_mul(1usize, e as usize);
        }
        if (1usize << (e as usize)) == n {
            return Some(e);
        }
        e = e + 1;
    }
    proof {
        assert forall|k: nat| n != pow2(k) by {
            if k >= usize::BITS {
                lemma2_to64();
                lemma2_to64_rest();
                if k > usize::BITS {
                    lemma_pow2_strictly_increases(usize::BITS as nat, k);
                }
            }
        }
    }
    None
}

/// The way a position is turned into a slot and a lap.
#[derive(Clone, Copy, Debug, PartialEq, Eq, Structural)]
pub enum Indexing {
    /// Remainder and quotient by the capacity. Any capacity.
    Modulo,
    /// Mask and shift. The capacity is a power of two.
    Mask,
}

/// Whether storage of `capacity` slots is full when the oldest element kept
/// stands at position `start` and the next free position is `reserved`.
///
/// By division the two positions are compared by their difference. By mask
/// they are compared as slot and lap: the buffer is full when both fall on
/// the same slot in different laps.
pub open spec fn full_at(indexing: Indexing, start: int, reserved: int, capacity: int) -> bool {
    match indexing {
        Indexing::Modulo => reserved - start == capacity,
        Indexing::Mask => slot_of(reserved, capacity) == slot_of(start, capacity) && lap_of(
            reserved,
            capacity,
        ) != lap_of(start, capacity),
    }
}

/// Between positions that are at most `capacity` apart, both ways of
/// indexing call the buffer full exactly when `capacity` positions are taken.
pub proof fn lemma_full_at(indexing: Indexing, start: int, reserved: int, capacity: int)
    requires
        0 < capacity,
        start <= reserved <= start + capacity,
    ensures
        full_at(indexing, start, reserved, capacity) <==> reserved - start == capacity,
{
    if indexing == Indexing::Mask {
        if reserved - start == capacity {
            lemma_mod_add_multiples_vanish(start, capacity);
            lemma_div_plus_one(start, capacity);
        } else if start < reserved {
            lemma_slots_differ(start, reserved, capacity);
        }
    }
}

/// An indexing strategy fitted to one capacity.
#[derive(Clone, Copy, Debug)]
pub struct Indexer {
    indexing: Indexing,
    capacity: usize,
    shift: u32,
}

impl Indexer {
    /// By mask, the capacity is two to the power of the shift.
    pub closed spec fn wf(&self) -> bool {
        self.indexing == Indexing::Mask ==> self.shift < usize::BITS && self.capacity == pow2(
            self.shift as nat,
        )
    }

    /// The way of indexing that was fitted.
    pub closed spec fn indexing(&self) -> Indexing {
        self.indexing
    }

    /// The capacity that it was fitted to.
    pub closed spec fn capacity(&self) -> int {
        self.capacity as int
    }

    /// Indexing by mask is only ever fitted to a power of two, which is not
    /// zero.
    pub proof fn lemma_capacity(&self)
        requires
            self.wf(),
        ensures
            self.indexing() == Indexing::Mask ==> is_power_of_two(self.capacity())
                && self.capacity() > 0,
    {
        lemma_pow2_pos(self.shift as nat);
    }

    /// Indexing by division, which fits any capacity.
    pub fn modulo(capacity: usize) -> (r: Indexer)
        ensures
            r.wf(),
            r.indexing() == Indexing::Modulo,
            r.capacity() == capacity,
    {
        Indexer { indexing: Indexing::Modulo, capacity, shift: 0 }
    }

    /// Fits `indexing` to `capacity`. Indexing by mask is refused for a
    /// capacity that is not a power of two; indexing by division never is.
    pub fn new(indexing: Indexing, capacity: usize) -> (r: Option<Indexer>)
        ensures
            r is None <==> indexing == Indexing::Mask && !is_power_of_two(capacity as int),
            r matches Some(ix) ==> ix.wf() && ix.indexing() == indexing && ix.capacity()
                == capacity,
    {
        match indexing {
            Indexing::Modulo => Some(Indexer::modulo(capacity)),
            Indexing::Mask => match power_of_two_exponent(capacity) {
                Some(shift) => Some(Indexer { indexing, capacity, shift }),
                None => None,
            },
        }
    }

    /// The slot that position `pos` falls on.
    pub fn slot(&self, pos: usize) -> (slot: usize)
        requires
            self.wf(),
            self.capacity() > 0,
        ensures
            slot == slot_of(pos as int, self.capacity()),
            slot < self.capacity(),
    {
        match self.indexing {
            Indexing::Modulo => pos % self.capacity,
            Indexing::Mask => {
                proof {
                    lemma_usize_low_bits_mask_is_mod(pos, self.shift as nat);
                    lemma_usize_pow2_no_overflow(self.shift as nat);
                }
                pos & (self.capacity - 1)
            },
        }
    }

    /// The lap that position `pos` is in.
    pub fn lap(&self, pos: usize) -> (lap: usize)
        requires
            self.wf(),
            self.capacity() > 0,
        ensures
            lap == lap_of(pos as int, self.capacity()),
    {
        match self.indexing {
            Indexing::Modulo => pos / self.capacity,
            Indexing::Mask => {
                proof {
                    lemma_usize_shr_is_div(pos, self.shift as usize);
                }
                pos >> (self.shift as usize)
            },
        }
    }

    /// Whether no position is free between `start` and `reserved`.
    pub fn is_full(&self, start: usize, reserved: usize) -> (full: bool)
        requires
            self.wf(),
        ensures
            full == full_at(self.indexing(), start as int, reserved as int, self.capacity()),
    {
        match self.indexing {
            Indexing::Modulo => reserved >= start && reserved - start == self.capacity,
            Indexing::Mask => {
                proof {
                    lemma_pow2_pos(self.shift as nat);
                }
                self.slot(reserved) == self.slot(start) && self.lap(reserved) != self.lap(start)
            },
        }
    }
}

} // verus!
