//! The chain of segments behind a `SegBuffer`: the segments themselves, and
//! how values are read from the chain. How values are written to it is in
//! `push`, and how they are borrowed in place is in `slices`.
use super::flat::lemma_flatten_one_empty;
use super::model::{
    is_capacity, lemma_pop_takes_first, popped_value, slices_after_pop, well_shaped,
    STARTING_SIZE,
};
use std::collections::VecDeque;
use vstd::prelude::*;

pub mod push;
pub mod slices;

pub use push::Push;
pub use slices::{ParRawIter, RawIter};

verus! {

/// A segment in the buffer: a block of `capacity` slots that is written from
/// slot 0 upwards and read from slot 0 upwards.
struct Segment<T> {
    /// Handle of the next segment in the chain, once one has been linked.
    next: Option<usize>,
    /// Handle of the previous segment in the chain, if there is one.
    prev: Option<usize>,
    /// Capacity of this segment.
    capacity: usize,
    /// Index of the next slot to write. A value at or above `capacity`
    /// closes the segment to writers.
    front: usize,
    /// Index of the next slot to read.
    back: usize,
    /// The values in the slots from `back` up to the write limit, in order.
    array: VecDeque<T>,
}

impl<T> Segment<T> {
    /// End of the range of slots that have been written.
    spec fn limit(&self) -> int {
        if self.front < self.capacity {
            self.front as int
        } else {
            self.capacity as int
        }
    }

    /// The two cursors bound the values held: `back <= limit`, and the
    /// segment holds one value for each slot between them.
    spec fn wf(&self) -> bool {
        &&& self.capacity > 0
        &&& self.back <= self.limit()
        &&& self.array@.len() == self.limit() - self.back
    }

    /// The values written and not yet read, oldest first.
    spec fn view(&self) -> Seq<T> {
        self.array@
    }

    /// No slot is left for a writer.
    spec fn is_closed(&self) -> bool {
        self.front >= self.capacity
    }

    /// Nothing has been written, read or linked.
    spec fn is_fresh(&self, capacity: int) -> bool {
        &&& self.capacity == capacity
        &&& self.front == 0
        &&& self.back == 0
        &&& self.next is None
        &&& self.prev is None
        &&& self.array@.len() == 0
    }

    /// This segment is `other` with `contents` in place of the values it
    /// held: cursors, capacity and links are those of `other`.
    spec fn holds_instead(&self, other: Segment<T>, contents: Seq<T>) -> bool {
        &&& self.capacity == other.capacity
        &&& self.front == other.front
        &&& self.back == other.back
        &&& self.next == other.next
        &&& self.prev == other.prev
        &&& self.array@ == contents
    }

    /// Claims the next slot by advancing the write cursor and, if the claimed
    /// position lies inside the segment, stores `value` there. A value that
    /// found no slot is handed back.
    ///
    /// The cursor only ever grows: it stops at the largest `usize` rather
    /// than wrap, so a closed segment stays closed.
    fn offer(&mut self, value: T) -> (refused: Option<T>)
        requires
            old(self).wf(),
        ensures
            final(self).wf(),
            final(self).capacity == old(self).capacity,
            final(self).back == old(self).back,
            final(self).next == old(self).next,
            final(self).prev == old(self).prev,
            old(self).is_closed() ==> refused == Some(value) && final(self)@ == old(self)@
                && final(self).is_closed(),
            !old(self).is_closed() ==> refused is None && final(self)@ == old(self)@.push(value)
                && final(self).front == old(self).front + 1,
    {
        let position = self.front;
        self.front = position.saturating_add(1);
        if position < self.capacity {
            self.array.push_back(value);
            None
        } else {
            Some(value)
        }
    }

    /// Moves the value at the read cursor out, if the written range is not
    /// exhausted, and advances the cursor past it.
    fn take(&mut self) -> (value: Option<T>)
        requires
            old(self).wf(),
        ensures
            final(self).wf(),
            final(self).capacity == old(self).capacity,
            final(self).front == old(self).front,
            final(self).next == old(self).next,
            final(self).prev == old(self).prev,
            match value {
                Some(v) => old(self)@.len() > 0 && v == old(self)@[0] && final(self)@ == old(
                    self,
                )@.drop_first() && final(self).back == old(self).back + 1,
                None => old(self)@.len() == 0 && final(self)@ == old(self)@ && final(self).back
                    == old(self).back,
            },
    {
        let limit = if self.front < self.capacity {
            self.front
        } else {
            self.capacity
        };
        if self.back < limit {
            self.back = self.back + 1;
            self.array.pop_front()
        } else {
            None
        }
    }
}

/// Allocates a segment with room for `capacity` values and nothing in it.
fn new_segment<T>(capacity: usize) -> (segment: Segment<T>)
    ensures
        segment.is_fresh(capacity as int),
{
    Segment {
        next: None,
        prev: None,
        capacity,
        front: 0,
        back: 0,
        array: VecDeque::with_capacity(capacity),
    }
}

/// The chain of segments, with the segment that producers write into (the
/// head) and the segment that the consumer reads from (the tail).
///
/// Segments are kept in chain order and never move: a segment's handle is its
/// position, and `next` of a linked segment is the handle after its own.
pub struct RawBuffer<T> {
    /// Every segment that was ever linked into the chain, oldest first.
    segments: Vec<Segment<T>>,
    /// Handle of the head segment.
    head: usize,
    /// Handle of the tail segment.
    tail: usize,
}

impl<T> View for RawBuffer<T> {
    type V = Seq<T>;

    /// The values in the buffer, oldest first: the slices, concatenated.
    open spec fn view(&self) -> Seq<T> {
        self.slices().flatten()
    }
}

impl<T> RawBuffer<T> {
    /// What holds of the segment with handle `i` in a chain.
    closed spec fn seg_inv(&self, i: int) -> bool {
        let segs = self.segments@;
        let s = segs[i];
        &&& s.wf()
        &&& is_capacity(s.capacity as nat)
        &&& s.capacity == (if i == 0 {
            STARTING_SIZE as int
        } else {
            2 * segs[i - 1].capacity
        })
        &&& match s.next {
            Some(n) => n == i + 1 && i + 1 < segs.len(),
            None => i + 1 == segs.len(),
        }
        &&& match s.prev {
            Some(p) => p == i - 1,
            None => i == 0,
        }
        &&& i < self.head ==> s.is_closed()
        &&& i > self.head ==> s.front == 0 && s.back == 0
        &&& i < self.tail ==> s.back == s.capacity
        &&& i > self.tail ==> s.back == 0
    }

    /// The chain is sound. It is so between any two steps of the pushes that
    /// are under way: the head may still be the segment before the last one,
    /// after a successor was linked and before the head moved on to it.
    pub closed spec fn sound(&self) -> bool {
        let segs = self.segments@;
        &&& self.tail <= self.head < segs.len() <= self.head + 2
        &&& forall|i: int| 0 <= i < segs.len() ==> #[trigger] self.seg_inv(i)
        &&& self.head + 1 < segs.len() ==> segs[self.head as int].is_closed()
        &&& self@.len() + self.popped() == self.pushed()
    }

    /// The chain is settled: the head is its last segment, and a head that
    /// was linked behind another segment holds the value that it was linked
    /// for. No push is under way then that has linked a segment and not yet
    /// stored its value there.
    pub closed spec fn settled(&self) -> bool {
        &&& self.head + 1 == self.segments@.len()
        &&& self.head > 0 ==> self.segments@[self.head as int].front > 0
    }

    /// The buffer is well formed: the chain is sound and settled.
    pub open spec fn wf(&self) -> bool {
        self.sound() && self.settled()
    }

    /// In a well-formed buffer there is a slice to read from, and every
    /// slice after the first holds a value.
    pub proof fn lemma_slices_shape(&self)
        requires
            self.wf(),
        ensures
            well_shaped(self.slices()),
    {
        assert forall|i: int| 0 < i < self.slices().len() implies #[trigger] self.slices()[i].len()
            > 0 by {
            assert(self.seg_inv(self.tail + i));
        }
    }

    /// As many values are in the buffer as were pushed and not popped.
    pub proof fn lemma_len(&self)
        requires
            self.sound(),
        ensures
            self@.len() + self.popped() == self.pushed(),
    {
    }

    /// The contents segment by segment, from the tail segment on: one slice
    /// for each, holding what was written to it and not yet read.
    pub closed spec fn slices(&self) -> Seq<Seq<T>> {
        Seq::new(
            (self.segments@.len() - self.tail) as nat,
            |i: int| self.segments@[self.tail + i]@,
        )
    }

    /// How many values were ever pushed.
    pub closed spec fn pushed(&self) -> nat {
        let h = self.segments@[self.head as int];
        (h.capacity - STARTING_SIZE + h.limit()) as nat
    }

    /// How many values were ever popped.
    pub closed spec fn popped(&self) -> nat {
        let t = self.segments@[self.tail as int];
        (t.capacity - STARTING_SIZE + t.back) as nat
    }

    /// Creates an empty buffer of one segment of the starting capacity.
    pub fn new() -> (buffer: Self)
        ensures
            buffer.wf(),
            buffer@ == Seq::<T>::empty(),
            buffer.slices() == seq![Seq::<T>::empty()],
            buffer.pushed() == 0,
            buffer.popped() == 0,
    {
        let head = new_segment(STARTING_SIZE);
        let mut segments = Vec::new();
        segments.push(head);
        let buffer = Self { segments, head: 0, tail: 0 };
        proof {
            assert(buffer.segments@[0]@ =~= Seq::<T>::empty());
            assert(buffer.slices() =~= seq![Seq::<T>::empty()]);
            lemma_flatten_one_empty(buffer.slices());
            assert(buffer.seg_inv(0));
        }
        buffer
    }

    /// Whether another value can be pushed: whether a segment that a push may
    /// have to add would still have a capacity that fits in a `usize`.
    pub fn has_room(&self) -> (room: bool)
        requires
            self.sound(),
        ensures
            room == (self.pushed() + STARTING_SIZE <= usize::MAX),
    {
        proof {
            assert(self.seg_inv(self.head as int));
        }
        let head = &self.segments[self.head];
        let limit = if head.front < head.capacity {
            head.front
        } else {
            head.capacity
        };
        limit <= usize::MAX - head.capacity
    }

    /// Removes a value from the start of the buffer.
    ///
    /// The value is read from the tail segment. When everything written to
    /// that segment has been read and a successor is linked, the tail moves on
    /// to the successor, the old segment gives up its storage, and the read is
    /// tried again there. With no successor the buffer is empty.
    pub fn pop(&mut self) -> (value: Option<T>)
        requires
            old(self).wf(),
        ensures
            final(self).wf(),
            value == popped_value(old(self).slices()),
            final(self).slices() == slices_after_pop(old(self).slices()),
            value == (if old(self)@.len() == 0 {
                None
            } else {
                Some(old(self)@[0])
            }),
            final(self)@ == (if old(self)@.len() == 0 {
                old(self)@
            } else {
                old(self)@.drop_first()
            }),
            final(self).pushed() == old(self).pushed(),
            final(self).popped() == old(self).popped() + (if value is Some {
                1nat
            } else {
                0nat
            }),
    {
        loop
            invariant
                self.wf(),
                old(self).wf(),
                self.pushed() == old(self).pushed(),
                self.popped() == old(self).popped(),
                self.slices() == old(self).slices() || (old(self).slices().len() > 1 && old(
                    self,
                ).slices()[0].len() == 0 && self.slices() == old(self).slices().drop_first()
                    && self.slices()[0].len() > 0),
            decreases self.head - self.tail,
        {
            let tail = self.tail;
            let ghost before = *self;
            proof {
                assert(self.seg_inv(tail as int));
            }
            match self.segments[tail].take() {
                Some(v) => {
                    proof {
                        assert forall|i: int| 0 <= i < self.segments@.len() implies #[trigger] self.seg_inv(
                            i,
                        ) by {
                            assert(before.seg_inv(i));
                        }
                        assert(self.slices() =~= before.slices().update(
                            0,
                            before.slices()[0].drop_first(),
                        ));
                        old(self).lemma_slices_shape();
                        lemma_pop_takes_first(old(self).slices());
                    }
                    return Some(v);
                },
                None => {},
            }
            proof {
                assert forall|i: int| 0 <= i < self.segments@.len() implies #[trigger] self.seg_inv(
                    i,
                ) by {
                    assert(before.seg_inv(i));
                }
                assert(self.slices() =~= before.slices());
            }
            match self.segments[tail].next {
                None => {
                    proof {
                        old(self).lemma_slices_shape();
                        lemma_pop_takes_first(old(self).slices());
                    }
                    return None;
                },
                Some(next) => {
                    let ghost full = *self;
                    self.tail = next;
                    self.segments[tail].array = VecDeque::new();
                    proof {
                        assert(full.seg_inv(tail as int));
                        assert(full.seg_inv(next as int));
                        assert(full.segments@[tail as int].is_closed());
                        assert(full.segments@[tail as int].back == full.segments@[tail as int].capacity);
                        assert(self.segments@[next as int] == full.segments@[next as int]);
                        assert(self.popped() == full.popped());
                        assert forall|i: int| 0 <= i < self.segments@.len() implies #[trigger] self.seg_inv(
                            i,
                        ) by {
                            assert(full.seg_inv(i));
                        }
                        assert(self.slices() =~= full.slices().drop_first());
                        full.lemma_slices_shape();
                        assert(full.slices()[1].len() > 0);
                    }
                },
            }
        }
    }
}

} // verus!
