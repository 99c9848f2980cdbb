//! The queue that a ring buffer stands for: a sequence of elements, oldest
//! first, that holds at most `capacity` of them.

use vstd::prelude::*;

verus! {

/// What offering `v` to `queue` answers: `v` is taken while there is room,
/// and handed back when `capacity` elements are held.
pub open spec fn insert_result<T>(queue: Seq<T>, capacity: nat, v: T) -> Result<(), T> {
    if queue.len() < capacity {
        Ok(())
    } else {
        Err(v)
    }
}

/// The queue after `v` was offered to it.
pub open spec fn after_insert<T>(queue: Seq<T>, capacity: nat, v: T) -> Seq<T> {
    if queue.len() < capacity {
        queue.push(v)
    } else {
        queue
    }
}

/// What asking `queue` for an element answers: the oldest one, if there is
/// any.
pub open spec fn get_result<T>(queue: Seq<T>) -> Option<T> {
    if queue.len() == 0 {
        None
    } else {
        Some(queue.first())
    }
}

/// The queue after it was asked for an element.
pub open spec fn after_get<T>(queue: Seq<T>) -> Seq<T> {
    if queue.len() == 0 {
        queue
    } else {
        queue.drop_first()
    }
}

/// The queue after each of `values` was offered to it, in their order.
pub open spec fn after_inserts<T>(queue: Seq<T>, capacity: nat, values: Seq<T>) -> Seq<T>
    decreases values.len(),
{
    if values.len() == 0 {
        queue
    } else {
        after_inserts(after_insert(queue, capacity, values.first()), capacity, values.drop_first())
    }
}

/// The answers to offering each of `values` to `queue`, in their order.
pub open spec fn insert_results<T>(queue: Seq<T>, capacity: nat, values: Seq<T>) -> Seq<
    Result<(), T>,
>
    decreases values.len(),
{
    if values.len() == 0 {
        Seq::empty()
    } else {
        seq![insert_result(queue, capacity, values.first())] + insert_results(
            after_insert(queue, capacity, values.first()),
            capacity,
            values.drop_first(),
        )
    }
}

/// The queue after it was asked for an element `n` times.
pub open spec fn after_gets<T>(queue: Seq<T>, n: nat) -> Seq<T>
    decreases n,
{
    if n == 0 {
        queue
    } else {
        after_gets(after_get(queue), (n - 1) as nat)
    }
}

/// The answers to asking `queue` for an element `n` times.
pub open spec fn get_results<T>(queue: Seq<T>, n: nat) -> Seq<Option<T>>
    decreases n,
{
    if n == 0 {
        Seq::empty()
    } else {
        seq![get_result(queue)] + get_results(after_get(queue), (n - 1) as nat)
    }
}

/// How many more elements `queue` has room for.
pub open spec fn room<T>(queue: Seq<T>, capacity: nat) -> nat {
    if queue.len() <= capacity {
        (capacity - queue.len()) as nat
    } else {
        0
    }
}

/// Each element as the answer that hands it out.
pub open spec fn handed_out<T>(values: Seq<T>) -> Seq<Option<T>> {
    Seq::new(values.len(), |i: int| Some(values[i]))
}

/// Of a run of insertions, those that find room are accepted and join the
/// queue in their order; every later one is handed back.
pub proof fn lemma_inserts<T>(queue: Seq<T>, capacity: nat, values: Seq<T>)
    ensures
        insert_results(queue, capacity, values).len() == values.len(),
        forall|i: int|
            0 <= i < values.len() ==> #[trigger] insert_results(queue, capacity, values)[i] == if i
                < room(queue, capacity) {
                Ok::<(), T>(())
            } else {
                Err(values[i])
            },
        values.len() <= room(queue, capacity) ==> after_inserts(queue, capacity, values) == queue
            + values,
        values.len() > room(queue, capacity) ==> after_inserts(queue, capacity, values) == queue
            + values.take(room(queue, capacity) as int),
    decreases values.len(),
{
    if values.len() > 0 {
        let next = after_insert(queue, capacity, values.first());
        let rest = values.drop_first();
        lemma_inserts(next, capacity, rest);
        let results = insert_results(queue, capacity, values);
        assert forall|i: int| 0 <= i < values.len() implies #[trigger] results[i] == if i < room(
            queue,
            capacity,
        ) {
            Ok::<(), T>(())
        } else {
            Err(values[i])
        } by {
            if i > 0 {
                assert(results[i] == insert_results(next, capacity, rest)[i - 1]);
                assert(rest[i - 1] == values[i]);
            }
        }
        if values.len() <= room(queue, capacity) {
            assert(next + rest =~= queue + values);
        } else if room(queue, capacity) > 0 {
            assert(next + rest.take(room(next, capacity) as int) =~= queue + values.take(
                room(queue, capacity) as int,
            ));
        } else {
            assert(rest.take(0) =~= Seq::<T>::empty());
            assert(values.take(0) =~= Seq::<T>::empty());
            assert(queue + Seq::<T>::empty() =~= queue);
        }
    } else {
        assert(queue + values =~= queue);
    }
}

/// A run of removals hands out the elements kept, oldest first, and then
/// answers `None`.
pub proof fn lemma_gets<T>(queue: Seq<T>, n: nat)
    ensures
        get_results(queue, n).len() == n,
        forall|i: int|
            0 <= i < n ==> #[trigger] get_results(queue, n)[i] == if i < queue.len() {
                Some(queue[i])
            } else {
                None
            },
        n <= queue.len() ==> after_gets(queue, n) == queue.skip(n as int),
        n > queue.len() ==> after_gets(queue, n) == Seq::<T>::empty(),
    decreases n,
{
    if n > 0 {
        let next = after_get(queue);
        let m = (n - 1) as nat;
        lemma_gets(next, m);
        let results = get_results(queue, n);
        assert forall|i: int| 0 <= i < n implies #[trigger] results[i] == if i < queue.len() {
            Some(queue[i])
        } else {
            None
        } by {
            if i > 0 {
                assert(results[i] == get_results(next, m)[i - 1]);
            }
        }
        if n <= queue.len() {
            assert(next.skip(m as int) =~= queue.skip(n as int));
        } else if queue.len() > 0 {
            assert(next.len() == queue.len() - 1);
        } else {
            assert(queue =~= Seq::<T>::empty());
        }
    } else {
        assert(queue.skip(0) =~= queue);
    }
}

/// First in, first out: after insertions that all find room, as many
/// removals as elements are kept hand out what was kept before, and then
/// what was inserted, each in the order in which it came in, and leave the
/// queue empty.
pub proof fn lemma_first_in_first_out<T>(queue: Seq<T>, capacity: nat, values: Seq<T>)
    requires
        queue.len() + values.len() <= capacity,
    ensures
        forall|i: int|
            0 <= i < values.len() ==> #[trigger] insert_results(queue, capacity, values)[i] is Ok,
        get_results(
            after_inserts(queue, capacity, values),
            queue.len() + values.len(),
        ) == handed_out(queue + values),
        after_gets(after_inserts(queue, capacity, values), queue.len() + values.len())
            == Seq::<T>::empty(),
{
    let all = queue + values;
    lemma_inserts(queue, capacity, values);
    lemma_gets(all, all.len());
    assert(get_results(all, all.len()) =~= handed_out(all));
    assert(all.skip(all.len() as int) =~= Seq::<T>::empty());
}

/// A removal makes room for one more insertion, and for one only: of any
/// run of insertions, one more is accepted after the removal than would
/// have been before it.
pub proof fn lemma_removal_frees_one_slot<T>(queue: Seq<T>, capacity: nat, values: Seq<T>)
    requires
        0 < queue.len() <= capacity,
    ensures
        room(after_get(queue), capacity) == room(queue, capacity) + 1,
        forall|i: int|
            0 <= i < values.len() ==> (#[trigger] insert_results(queue, capacity, values)[i] is Ok
                <==> i < room(queue, capacity)),
        forall|i: int|
            0 <= i < values.len() ==> (#[trigger] insert_results(
                after_get(queue),
                capacity,
                values,
            )[i] is Ok <==> i < room(queue, capacity) + 1),
{
    lemma_inserts(queue, capacity, values);
    lemma_inserts(after_get(queue), capacity, values);
}

/// An element inserted into an empty queue is the one that the next removal
/// hands out, and the queue is empty again afterwards.
pub proof fn lemma_round_trip<T>(capacity: nat, v: T)
    requires
        capacity >= 1,
    ensures
        insert_result(Seq::<T>::empty(), capacity, v) == Ok::<(), T>(()),
        get_result(after_insert(Seq::<T>::empty(), capacity, v)) == Some(v),
        after_get(after_insert(Seq::<T>::empty(), capacity, v)) == Seq::<T>::empty(),
{
    assert(Seq::<T>::empty().push(v).drop_first() =~= Seq::<T>::empty());
}

/// Into an empty queue exactly `capacity` insertions are accepted: each of
/// the first `capacity` succeeds, and every one after them is handed back
/// as long as nothing is removed.
pub proof fn lemma_capacity_boundary<T>(capacity: nat, values: Seq<T>)
    ensures
        forall|i: int|
            0 <= i < values.len() && i < capacity ==> #[trigger] insert_results(
                Seq::<T>::empty(),
                capacity,
                values,
            )[i] == Ok::<(), T>(()),
        forall|i: int|
            capacity <= i < values.len() ==> #[trigger] insert_results(
                Seq::<T>::empty(),
                capacity,
                values,
            )[i] == Err::<(), T>(values[i]),
        after_inserts(Seq::<T>::empty(), capacity, values).len() <= capacity,
{
    lemma_inserts(Seq::<T>::empty(), capacity, values);
}

/// The queue after rounds of use: in each round one batch is inserted, and
/// then as many removals are made as the batch has elements.
pub open spec fn after_rounds<T>(queue: Seq<T>, capacity: nat, batches: Seq<Seq<T>>) -> Seq<T>
    decreases batches.len(),
{
    if batches.len() == 0 {
        queue
    } else {
        after_rounds(
            after_gets(after_inserts(queue, capacity, batches.first()), batches.first().len()),
            capacity,
            batches.drop_first(),
        )
    }
}

/// What the removals of each round answer.
pub open spec fn round_results<T>(queue: Seq<T>, capacity: nat, batches: Seq<Seq<T>>) -> Seq<
    Seq<Option<T>>,
>
    decreases batches.len(),
{
    if batches.len() == 0 {
        Seq::empty()
    } else {
        seq![
            get_results(after_inserts(queue, capacity, batches.first()), batches.first().len()),
        ] + round_results(
            after_gets(after_inserts(queue, capacity, batches.first()), batches.first().len()),
            capacity,
            batches.drop_first(),
        )
    }
}

/// However many rounds an empty queue goes through, and however far beyond
/// its capacity the number of elements that pass through it grows, every
/// round hands out its own batch in the order in which it was inserted, and
/// leaves the queue empty.
pub proof fn lemma_rounds_keep_order<T>(capacity: nat, batches: Seq<Seq<T>>)
    requires
        forall|i: int| 0 <= i < batches.len() ==> (#[trigger] batches[i]).len() <= capacity,
    ensures
        round_results(Seq::<T>::empty(), capacity, batches).len() == batches.len(),
        forall|i: int|
            0 <= i < batches.len() ==> #[trigger] round_results(
                Seq::<T>::empty(),
                capacity,
                batches,
            )[i] == handed_out(batches[i]),
        after_rounds(Seq::<T>::empty(), capacity, batches) == Seq::<T>::empty(),
    decreases batches.len(),
{
    if batches.len() > 0 {
        let empty = Seq::<T>::empty();
        let batch = batches.first();
        let rest = batches.drop_first();
        lemma_first_in_first_out(empty, capacity, batch);
        assert(empty + batch =~= batch);
        assert forall|i: int| 0 <= i < rest.len() implies (#[trigger] rest[i]).len()
            <= capacity by {
            assert(rest[i] == batches[i + 1]);
        }
        lemma_rounds_keep_order(capacity, rest);
        let results = round_results(empty, capacity, batches);
        assert forall|i: int| 0 <= i < batches.len() implies #[trigger] results[i] == handed_out(
            batches[i],
        ) by {
            if i > 0 {
                assert(results[i] == round_results(empty, capacity, rest)[i - 1]);
                assert(rest[i - 1] == batches[i]);
            }
        }
    }
}

} // verus!
