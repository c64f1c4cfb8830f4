//! A bounded queue of frames: each frame holds the channel samples that
//! arrived for one position of the stream.

use crate::music::{
    evict_and_push, evict_then_push, keep_newest, lemma_step_keeps_newest, push_sample, record_with,
};
use std::collections::VecDeque;
use vstd::prelude::*;

verus! {

/// The channel samples of one position in the stream.
pub struct Frames<T> {
    pub frame: Vec<T>,
}

impl<T> View for Frames<T> {
    type V = Seq<T>;

    open spec fn view(&self) -> Seq<T> {
        self.frame@
    }
}

impl<T> Frames<T> {
    /// An empty frame with room reserved for `channel_count` samples.
    pub fn init_frames(channel_count: usize) -> (frames: Frames<T>)
        ensures
            frames@ == Seq::<T>::empty(),
    {
        Frames { frame: Vec::with_capacity(channel_count) }
    }
}

/// The samples of each frame of `queue`, frame by frame.
pub open spec fn frame_views<T>(queue: Seq<Frames<T>>) -> Seq<Seq<T>> {
    queue.map_values(|f: Frames<T>| f@)
}

/// `count` copies of `sample`.
pub open spec fn repeated<T>(sample: T, count: nat) -> Seq<T> {
    Seq::new(count, |_i: int| sample)
}

/// A queue of `size` empty frames, each with room reserved for
/// `num_channels` samples.
pub fn init_sample_handler<T>(size: usize, num_channels: u32) -> (queue: VecDeque<Frames<T>>)
    ensures
        frame_views(queue@) == Seq::new(size as nat, |_i: int| Seq::<T>::empty()),
{
    let mut queue: VecDeque<Frames<T>> = VecDeque::new();
    let mut i: usize = 0;
    while i < size
        invariant
            i <= size,
            frame_views(queue@) == Seq::new(i as nat, |_i: int| Seq::<T>::empty()),
        decreases size - i,
    {
        let ghost before = queue@;
        let f: Frames<T> = Frames::init_frames(num_channels as usize);
        queue.push_back(f);
        assert(queue@ == before.push(f));
        assert(frame_views(queue@) =~= frame_views(before).push(f@));
        assert(frame_views(queue@) =~= Seq::new((i + 1) as nat, |_i: int| Seq::<T>::empty()));
        i = i + 1;
    }
    queue
}

/// A frame that holds `count` copies of `sample`.
pub fn fill_frame<T: Copy>(sample: T, count: u32) -> (frame: Frames<T>)
    ensures
        frame@ == repeated(sample, count as nat),
{
    let mut f: Frames<T> = Frames::init_frames(2);
    let mut j: usize = 0;
    let limit = count as usize;
    while j < limit
        invariant
            j <= limit,
            limit == count,
            f@ == repeated(sample, j as nat),
        decreases limit - j,
    {
        f.frame.push(sample);
        assert(f@ =~= repeated(sample, (j + 1) as nat));
        j = j + 1;
    }
    f
}

/// Records one incoming `sample` as a frame of `frames` copies of it,
/// evicting the oldest frame first when the queue is at the capacity it
/// reports now. Returns that capacity (at least the number of frames held):
/// the queue never grows past a capacity of at least one.
pub fn record_frame<T: Copy>(queue: &mut VecDeque<Frames<T>>, sample: T, frames: u32) -> (capacity:
    usize)
    ensures
        capacity >= old(queue)@.len(),
        frame_views(final(queue)@) == evict_then_push(
            frame_views(old(queue)@),
            capacity as int,
            repeated(sample, frames as nat),
        ),
        capacity > 0 ==> final(queue)@.len() <= capacity,
        capacity > 0 ==> frame_views(final(queue)@) == keep_newest(
            frame_views(old(queue)@).push(repeated(sample, frames as nat)),
            capacity as nat,
        ),
        exists|capacity: int|
            capacity >= old(queue)@.len() && frame_views(final(queue)@) == evict_then_push(
                frame_views(old(queue)@),
                capacity,
                repeated(sample, frames as nat),
            ),
{
    let frame = fill_frame(sample, frames);
    let capacity = push_sample(queue, frame);
    proof {
        lemma_views_of_step(old(queue)@, capacity as int, frame);
        if capacity > 0 {
            lemma_step_keeps_newest(frame_views(old(queue)@), capacity as int, frame@);
        }
    }
    capacity
}

/// The frames one recording step leaves are the views of the frames it
/// leaves.
proof fn lemma_views_of_step<T>(queue: Seq<Frames<T>>, capacity: int, frame: Frames<T>)
    ensures
        frame_views(evict_then_push(queue, capacity, frame)) == evict_then_push(
            frame_views(queue),
            capacity,
            frame@,
        ),
{
    if queue.len() == capacity && queue.len() > 0 {
        assert(frame_views(queue.drop_first().push(frame)) =~= frame_views(queue).drop_first().push(
            frame@,
        ));
    } else {
        assert(frame_views(queue.push(frame)) =~= frame_views(queue).push(frame@));
    }
}

/// Records one frame of `frames` copies for each sample of `buffer`, in
/// order, evicting against the given `capacity` at every step (the capacity
/// a deque reports while it does not reallocate).
pub fn record_frames_with_capacity<T: Copy>(
    queue: &mut VecDeque<Frames<T>>,
    capacity: usize,
    buffer: &[T],
    frames: u32,
)
    ensures
        frame_views(final(queue)@) == record_with(
            frame_views(old(queue)@),
            capacity as int,
            buffer@.map_values(|x: T| repeated(x, frames as nat)),
        ),
{
    let limit = buffer.len();
    let mut i: usize = 0;
    assert(buffer@.take(0).map_values(|x: T| repeated(x, frames as nat)) =~= Seq::<Seq<T>>::empty());
    while i < limit
        invariant
            limit == buffer@.len(),
            i <= limit,
            frame_views(queue@) == record_with(
                frame_views(old(queue)@),
                capacity as int,
                buffer@.take(i as int).map_values(|x: T| repeated(x, frames as nat)),
            ),
        decreases limit - i,
    {
        let ghost before = queue@;
        let frame = fill_frame(buffer[i], frames);
        evict_and_push(queue, capacity, frame);
        proof {
            lemma_views_of_step(before, capacity as int, frame);
            let done = buffer@.take(i + 1).map_values(|x: T| repeated(x, frames as nat));
            assert(done.drop_last() =~= buffer@.take(i as int).map_values(
                |x: T| repeated(x, frames as nat),
            ));
            assert(done.last() == frame@);
        }
        i = i + 1;
    }
    assert(buffer@.take(limit as int) =~= buffer@);
}

} // verus!
