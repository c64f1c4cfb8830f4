//! A bounded window of the newest audio samples.
//!
//! The window lives in a `VecDeque`. A sample that arrives while the deque
//! holds as many samples as its capacity first evicts the oldest one.

use std::collections::VecDeque;
use vstd::prelude::*;

verus! {

/// The number of samples the visualiser keeps for one spectrum.
pub const SAMPLE_SIZE: usize = 8192;

/// An empty window that has asked the allocator for room for `size` samples.
pub fn init_sample_handler<T>(size: usize) -> (samples: VecDeque<T>)
    ensures
        samples@ == Seq::<T>::empty(),
{
    VecDeque::with_capacity(size)
}

/// One recording step: when the window is full (it holds `capacity` samples,
/// and at least one), its oldest sample leaves; then `sample` is appended.
pub open spec fn evict_then_push<T>(window: Seq<T>, capacity: int, sample: T) -> Seq<T> {
    if window.len() == capacity && window.len() > 0 {
        window.drop_first().push(sample)
    } else {
        window.push(sample)
    }
}

/// Appends `sample`, first evicting the oldest sample when the window holds
/// exactly `capacity` samples.
pub fn evict_and_push<T>(samples: &mut VecDeque<T>, capacity: usize, sample: T)
    ensures
        final(samples)@ == evict_then_push(old(samples)@, capacity as int, sample),
{
    if samples.len() == capacity {
        samples.pop_front();
    }
    samples.push_back(sample);
}

/// `VecDeque::capacity`: the number of elements the deque can hold without
/// reallocating. What the allocator handed out is not stated; the
/// documentation gives that it is at least the number of elements held.
#[verifier::external_body]
fn deque_capacity<T>(samples: &VecDeque<T>) -> (capacity: usize)
    ensures
        capacity >= samples@.len(),
{
    samples.capacity()
}

/// Appends `sample` to the window, evicting the oldest sample first when the
/// deque is at its capacity. Returns that capacity, the one the deque
/// reports now (at least the number of samples it holds): the window is
/// `evict_then_push` of the old one against it, so it never grows past a
/// capacity of at least one.
pub fn push_sample<T>(samples: &mut VecDeque<T>, sample: T) -> (capacity: usize)
    ensures
        capacity >= old(samples)@.len(),
        final(samples)@ == evict_then_push(old(samples)@, capacity as int, sample),
        capacity > 0 ==> final(samples)@.len() <= capacity,
        capacity > 0 ==> final(samples)@ == keep_newest(old(samples)@.push(sample), capacity as nat),
        exists|capacity: int|
            capacity >= old(samples)@.len() && final(samples)@ == evict_then_push(
                old(samples)@,
                capacity,
                sample,
            ),
{
    let capacity = deque_capacity(samples);
    evict_and_push(samples, capacity, sample);
    proof {
        if capacity > 0 {
            lemma_step_keeps_newest(old(samples)@, capacity as int, sample);
        }
    }
    capacity
}

/// Whether `window` is the part of `history` that starts somewhere and runs
/// to its end.
pub open spec fn is_suffix_of<T>(window: Seq<T>, history: Seq<T>) -> bool {
    window.len() <= history.len() && window == history.skip(history.len() - window.len())
}

/// Records every sample of `buffer`, in order, into the window, evicting the
/// oldest sample whenever the deque is at its capacity. Returns the capacity
/// the deque reports at the call (at least the number of samples it holds).
///
/// A deque does not reallocate while it holds fewer elements than its
/// capacity, and the window never pushes into a full deque without evicting
/// first, so for a capacity of at least one that capacity holds for the
/// whole block: the window ends as the newest `capacity` samples of the old
/// window followed by `buffer`. A deque with no room at all (capacity zero,
/// so empty) grows at its first sample; there the capacity is read anew at
/// every step.
pub fn record_samples<T: Copy>(samples: &mut VecDeque<T>, buffer: &[T]) -> (capacity: usize)
    ensures
        capacity >= old(samples)@.len(),
        capacity > 0 ==> final(samples)@ == keep_newest(
            old(samples)@ + buffer@,
            capacity as nat,
        ),
        capacity > 0 ==> final(samples)@.len() == if old(samples)@.len() + buffer@.len()
            <= capacity {
            old(samples)@.len() + buffer@.len()
        } else {
            capacity as nat
        },
        is_suffix_of(final(samples)@, old(samples)@ + buffer@),
        final(samples)@.len() >= old(samples)@.len(),
        buffer@.len() > 0 ==> final(samples)@.len() > 0 && final(samples)@.last()
            == buffer@.last(),
{
    let capacity = deque_capacity(samples);
    if capacity > 0 {
        record_samples_with_capacity(samples, capacity, buffer);
        proof {
            let h = old(samples)@ + buffer@;
            lemma_window_keeps_newest(old(samples)@, capacity as int, buffer@);
            if h.len() <= capacity {
                assert(samples@ =~= h.skip(0));
            } else {
                assert(samples@.len() == capacity);
            }
            if buffer@.len() > 0 {
                assert(samples@.last() == h.last());
            }
        }
    } else {
        record_each_sample(samples, buffer);
    }
    capacity
}

/// Records every sample of `buffer`, in order, each one as `push_sample`
/// does, reading the deque's capacity anew at every step.
///
/// Whatever capacity the deque reports along the way, the window ends as a
/// suffix of the old window followed by `buffer`, no shorter than before, and
/// holding the last sample of `buffer` when there is one.
fn record_each_sample<T: Copy>(samples: &mut VecDeque<T>, buffer: &[T])
    ensures
        is_suffix_of(final(samples)@, old(samples)@ + buffer@),
        final(samples)@.len() >= old(samples)@.len(),
        buffer@.len() > 0 ==> final(samples)@.len() > 0 && final(samples)@.last()
            == buffer@.last(),
{
    let limit = buffer.len();
    let mut i: usize = 0;
    assert(old(samples)@ + buffer@.take(0) =~= old(samples)@);
    assert(samples@ =~= samples@.skip(0));
    while i < limit
        invariant
            limit == buffer@.len(),
            i <= limit,
            is_suffix_of(samples@, old(samples)@ + buffer@.take(i as int)),
            samples@.len() >= old(samples)@.len(),
            i > 0 ==> samples@.len() > 0,
        decreases limit - i,
    {
        let ghost before = samples@;
        push_sample(samples, buffer[i]);
        proof {
            let h = old(samples)@ + buffer@.take(i as int);
            let h1 = old(samples)@ + buffer@.take(i + 1);
            assert(h1 =~= h.push(buffer@[i as int]));
            let cap = choose|capacity: int|
                capacity >= before.len() && samples@ == evict_then_push(before, capacity, buffer@[i as int]);
            assert(samples@ =~= h1.skip(h1.len() - samples@.len()));
        }
        i = i + 1;
    }
    assert(buffer@.take(limit as int) =~= buffer@);
    proof {
        if limit > 0 {
            let h = old(samples)@ + buffer@;
            assert(samples@.last() == h.skip(h.len() - samples@.len()).last());
        }
    }
}

/// The window that results from recording `buffer`, sample after sample, when
/// the deque reports the same `capacity` at every step.
pub open spec fn record_with<T>(window: Seq<T>, capacity: int, buffer: Seq<T>) -> Seq<T>
    decreases buffer.len(),
{
    if buffer.len() == 0 {
        window
    } else {
        evict_then_push(record_with(window, capacity, buffer.drop_last()), capacity, buffer.last())
    }
}

/// The newest `capacity` entries of `history`, in order (all of it when it is
/// no longer than that).
pub open spec fn keep_newest<T>(history: Seq<T>, capacity: nat) -> Seq<T> {
    if history.len() <= capacity {
        history
    } else {
        history.skip(history.len() - capacity)
    }
}

/// Records every sample of `buffer`, in order, into the window, evicting
/// against the given `capacity` at every step (the capacity a deque reports
/// while it does not reallocate).
pub fn record_samples_with_capacity<T: Copy>(
    samples: &mut VecDeque<T>,
    capacity: usize,
    buffer: &[T],
)
    ensures
        final(samples)@ == record_with(old(samples)@, capacity as int, buffer@),
{
    let limit = buffer.len();
    let mut i: usize = 0;
    assert(buffer@.take(0) =~= Seq::<T>::empty());
    while i < limit
        invariant
            limit == buffer@.len(),
            i <= limit,
            samples@ == record_with(old(samples)@, capacity as int, buffer@.take(i as int)),
        decreases limit - i,
    {
        evict_and_push(samples, capacity, buffer[i]);
        assert(buffer@.take(i + 1).drop_last() =~= buffer@.take(i as int));
        i = i + 1;
    }
    assert(buffer@.take(limit as int) =~= buffer@);
}

/// A window of fixed capacity `capacity > 0` that starts with at most
/// `capacity` samples holds, after `buffer` is recorded into it, exactly the
/// newest `capacity` samples of the old window followed by `buffer`.
pub proof fn lemma_window_keeps_newest<T>(window: Seq<T>, capacity: int, buffer: Seq<T>)
    requires
        0 < capacity,
        window.len() <= capacity,
    ensures
        record_with(window, capacity, buffer) == keep_newest(window + buffer, capacity as nat),
        record_with(window, capacity, buffer).len() <= capacity,
    decreases buffer.len(),
{
    if buffer.len() == 0 {
        assert(window + buffer =~= window);
    } else {
        let rest = buffer.drop_last();
        let x = buffer.last();
        lemma_window_keeps_newest(window, capacity, rest);
        let h = window + rest;
        assert(window + buffer =~= h.push(x));
        let r = keep_newest(h, capacity as nat);
        if h.len() >= capacity {
            assert(r.drop_first().push(x) =~= h.push(x).skip(h.len() + 1 - capacity));
        }
    }
}

/// Recording `first` and then `second` leaves the same window as recording
/// `first` followed by `second` in one go.
pub proof fn lemma_record_concat<T>(window: Seq<T>, capacity: int, first: Seq<T>, second: Seq<T>)
    ensures
        record_with(record_with(window, capacity, first), capacity, second) == record_with(
            window,
            capacity,
            first + second,
        ),
    decreases second.len(),
{
    if second.len() == 0 {
        assert(first + second =~= first);
    } else {
        lemma_record_concat(window, capacity, first, second.drop_last());
        assert((first + second).drop_last() =~= first + second.drop_last());
        assert((first + second).last() == second.last());
    }
}

/// A window that holds at most `capacity > 0` samples still does after one
/// more recording step.
pub proof fn lemma_step_stays_bounded<T>(window: Seq<T>, capacity: int, sample: T)
    requires
        0 < capacity,
        window.len() <= capacity,
    ensures
        evict_then_push(window, capacity, sample).len() <= capacity,
        evict_then_push(window, capacity, sample).last() == sample,
{
}


/// One recording step into a window of at most `capacity > 0` samples keeps
/// exactly the newest `capacity` samples of the window followed by the new
/// one.
pub proof fn lemma_step_keeps_newest<T>(window: Seq<T>, capacity: int, sample: T)
    requires
        0 < capacity,
        window.len() <= capacity,
    ensures
        evict_then_push(window, capacity, sample) == keep_newest(window.push(sample), capacity as nat),
{
    if window.len() == capacity {
        assert(window.drop_first().push(sample) =~= window.push(sample).skip(1));
    }
}

/// The newest `capacity` samples of a history are as many as the shorter of
/// `capacity` and the history, and they are its last entries, in order.
pub proof fn lemma_keep_newest_is_last_entries<T>(history: Seq<T>, capacity: nat)
    ensures
        keep_newest(history, capacity).len() == if history.len() <= capacity {
            history.len()
        } else {
            capacity
        },
        forall|i: int|
            0 <= i < keep_newest(history, capacity).len() ==> #[trigger] keep_newest(
                history,
                capacity,
            )[i] == history[history.len() - keep_newest(history, capacity).len() + i],
{
}

} // verus!
