//! The segmented buffer.
use vstd::prelude::*;

pub mod flat;
pub mod fold;
pub mod iter;
pub mod laws;
pub mod model;
pub mod par;
pub mod raw;

pub use iter::{Iter, IterMut, SliceIter, SliceIterMut};
pub use par::{ParIter, ParIterMut, ParSliceIter, ParSliceIterMut};

use model::{
    popped_value, slices_after_pop, slices_after_push, slices_after_pushes, well_shaped,
    STARTING_SIZE,
};
use raw::RawBuffer;
use vstd::std_specs::iter::IteratorSpec;

verus! {

/// An unbounded buffer implemented as a chain of segments.
///
/// The buffer acts as a queue: values leave in the order in which they were
/// pushed. Its view is the sequence of values it holds, oldest first.
pub struct SegBuffer<T> {
    raw: RawBuffer<T>,
}

impl<T> View for SegBuffer<T> {
    type V = Seq<T>;

    /// The values in the buffer, oldest first: the slices, concatenated.
    open spec fn view(&self) -> Seq<T> {
        self.slices().flatten()
    }
}

impl<T> SegBuffer<T> {
    /// The buffer is well formed. Every buffer that `new` made and the
    /// methods below changed is.
    pub closed spec fn wf(&self) -> bool {
        self.raw.wf()
    }

    /// The contents segment by segment, oldest first: one slice for each
    /// segment from the one that is read from up to the one that is written
    /// to.
    pub closed spec fn slices(&self) -> Seq<Seq<T>> {
        self.raw.slices()
    }

    /// How many values were ever pushed.
    pub closed spec fn pushed(&self) -> nat {
        self.raw.pushed()
    }

    /// How many values were ever popped.
    pub closed spec fn popped(&self) -> nat {
        self.raw.popped()
    }

    /// Creates a new, empty `SegBuffer<T>`.
    pub fn new() -> (buffer: Self)
        ensures
            buffer.wf(),
            buffer.slices() == seq![Seq::<T>::empty()],
            buffer@ == Seq::<T>::empty(),
            buffer.pushed() == 0,
            buffer.popped() == 0,
    {
        Self { raw: RawBuffer::new() }
    }

    /// Whether another value can be pushed: whether a segment that a push may
    /// have to add would still have a capacity that fits in a `usize`.
    pub fn has_room(&self) -> (room: bool)
        requires
            self.wf(),
        ensures
            room == (self.pushed() + STARTING_SIZE <= usize::MAX),
    {
        self.raw.has_room()
    }

    /// Pushes an element to the buffer.
    ///
    /// The element becomes the newest value: it is appended to the last
    /// slice, or starts a new slice where the segments are full.
    pub fn push(&mut self, value: T)
        requires
            old(self).wf(),
            old(self).pushed() + STARTING_SIZE <= usize::MAX,
        ensures
            final(self).wf(),
            final(self).slices() == slices_after_push(old(self).slices(), old(self).pushed(), value),
            final(self)@ == old(self)@.push(value),
            final(self).pushed() == old(self).pushed() + 1,
            final(self).popped() == old(self).popped(),
    {
        self.raw.push(value)
    }

    /// Pops the oldest element from the buffer, or returns `None` if the
    /// buffer is empty.
    pub fn pop(&mut self) -> (value: Option<T>)
        requires
            old(self).wf(),
        ensures
            final(self).wf(),
            value == popped_value(old(self).slices()),
            final(self).slices() == slices_after_pop(old(self).slices()),
            value == (if old(self)@.len() == 0 {
                None
            } else {
                Some(old(self)@[0])
            }),
            final(self)@ == (if old(self)@.len() == 0 {
                old(self)@
            } else {
                old(self)@.drop_first()
            }),
            final(self).pushed() == old(self).pushed(),
            final(self).popped() == old(self).popped() + (if value is Some {
                1nat
            } else {
                0nat
            }),
    {
        self.raw.pop()
    }

    /// Creates a buffer that holds the values that `iter` yields, in the
    /// order in which it yields them: each of them is pushed in turn.
    pub fn from_iter<I: Iterator<Item = T>>(iter: I) -> (buffer: Self)
        requires
            iter.obeys_prophetic_iter_laws(),
            iter.decrease() is Some,
            iter.remaining().len() + STARTING_SIZE <= usize::MAX,
        ensures
            buffer.wf(),
            buffer.slices() == slices_after_pushes(
                seq![Seq::<T>::empty()],
                0,
                iter.remaining(),
            ),
            buffer@ == iter.remaining(),
            buffer.pushed() == iter.remaining().len(),
            buffer.popped() == 0,
    {
        let mut buffer = SegBuffer::new();
        let mut iter = iter;
        let ghost all = iter.remaining();
        loop
            invariant
                buffer.wf(),
                iter.obeys_prophetic_iter_laws(),
                iter.decrease() is Some,
                all.len() + STARTING_SIZE <= usize::MAX,
                buffer@ + iter.remaining() == all,
                slices_after_pushes(buffer.slices(), buffer.pushed(), iter.remaining())
                    == slices_after_pushes(seq![Seq::<T>::empty()], 0, all),
                buffer.pushed() == buffer@.len(),
                buffer.popped() == 0,
            ensures
                buffer@ == all,
                buffer.slices() == slices_after_pushes(seq![Seq::<T>::empty()], 0, all),
            decreases iter.decrease()->0,
        {
            match iter.next() {
                Some(value) => {
                    buffer.push(value);
                    proof {
                        assert(buffer@ + iter.remaining() =~= all);
                    }
                },
                None => {
                    proof {
                        assert(buffer@ =~= all);
                    }
                    break ;
                },
            }
        }
        buffer
    }

    /// In a well-formed buffer there is a slice to read from, and every
    /// slice after the first holds a value.
    pub proof fn lemma_slices_shape(&self)
        requires
            self.wf(),
        ensures
            well_shaped(self.slices()),
    {
        self.raw.lemma_slices_shape();
    }

    /// As many values are in the buffer as were pushed and not popped.
    pub proof fn lemma_len(&self)
        requires
            self.wf(),
        ensures
            self@.len() + self.popped() == self.pushed(),
    {
        self.raw.lemma_len();
    }
}

impl<T> Default for SegBuffer<T> {
    fn default() -> (buffer: Self)
        ensures
            buffer.wf(),
            buffer.slices() == seq![Seq::<T>::empty()],
            buffer@ == Seq::<T>::empty(),
            buffer.pushed() == 0,
            buffer.popped() == 0,
    {
        Self::new()
    }
}

} // verus!
