//! Parallel iteration: the slices of a buffer as producers that a scheduler
//! can split in two and fold, so that workers go through different segments
//! at the same time.
use super::flat::same_lengths;
use super::fold::{folded, lemma_folded_push, refs_to};
use super::raw::ParRawIter;
use super::iter::{Iter, IterMut, SliceIter, SliceIterMut};
use super::SegBuffer;
use vstd::prelude::*;

verus! {

/// A parallel iterator over slices in a `SegBuffer`.
pub struct ParSliceIter<'a, T> {
    slices: SliceIter<'a, T>,
}

/// A parallel iterator over mutable slices in a `SegBuffer`.
pub type ParSliceIterMut<'a, T> = ParRawIter<'a, T>;

/// A parallel iterator over references to values in a `SegBuffer`.
pub struct ParIter<'a, T> {
    slices: ParSliceIter<'a, T>,
}

/// A parallel iterator over mutable references to values in a `SegBuffer`.
pub struct ParIterMut<'a, T> {
    slices: ParSliceIterMut<'a, T>,
}

impl<'a, T> View for ParSliceIter<'a, T> {
    type V = Seq<Seq<T>>;

    /// What the slices of this producer hold, oldest first.
    open spec fn view(&self) -> Seq<Seq<T>> {
        self.refs().map_values(|s: &[T]| s@)
    }
}

impl<'a, T> ParSliceIter<'a, T> {
    /// The slices that this producer holds, oldest first.
    pub closed spec fn refs(&self) -> Seq<&'a [T]> {
        self.slices.refs()
    }

    /// The slices one after the other, for a worker that takes them in turn.
    pub fn into_iter(self) -> (it: SliceIter<'a, T>)
        ensures
            it.refs() == self.refs(),
    {
        self.slices
    }

    /// Divides the slices in two halves by their number. A producer of fewer
    /// than two slices is not divided: it comes back whole, with `None`.
    /// Otherwise the first half of the slices, rounded down, goes to the left
    /// and the others go to the right.
    pub fn split(self) -> (halves: (Self, Option<Self>))
        ensures
            match halves.1 {
                Some(right) => {
                    &&& self.refs().len() >= 2
                    &&& halves.0.refs() == self.refs().take(self.refs().len() as int / 2)
                    &&& right.refs() == self.refs().skip(self.refs().len() as int / 2)
                },
                None => self.refs().len() < 2 && halves.0.refs() == self.refs(),
            },
    {
        let len = self.slices.len();
        if len < 2 {
            return (self, None);
        }
        let mut left = self.slices;
        let right = left.split_off(len / 2);
        (Self { slices: left }, Some(Self { slices: right }))
    }

    /// Folds the slices into `init`, oldest first: `f` is called on the
    /// accumulator and each slice in turn.
    pub fn fold_with<A, F: Fn(A, &'a [T]) -> A>(self, init: A, f: F) -> (result: A)
        requires
            forall|acc: A, slice: &'a [T]| call_requires(f, (acc, slice)),
        ensures
            folded(f, init, self.refs(), result),
    {
        let mut slices = self.slices;
        let mut acc = init;
        let ghost done = Seq::<&'a [T]>::empty();
        loop
            invariant
                forall|acc: A, slice: &'a [T]| call_requires(f, (acc, slice)),
                done + slices.refs() == self.refs(),
                folded(f, init, done, acc),
            decreases slices.refs().len(),
        {
            let ghost before = slices.refs();
            match slices.next() {
                Some(slice) => {
                    let ghost previous = acc;
                    acc = f(acc, slice);
                    proof {
                        lemma_folded_push(f, init, done, previous, slice, acc);
                        assert(done.push(slice) + slices.refs() =~= done + before);
                        done = done.push(slice);
                    }
                },
                None => {
                    proof {
                        assert(done =~= self.refs());
                    }
                    return acc;
                },
            }
        }
    }
}

impl<'a, T> View for ParIter<'a, T> {
    type V = Seq<T>;

    /// The values of this producer, oldest first: what its slices hold,
    /// concatenated.
    open spec fn view(&self) -> Seq<T> {
        self.slices().flatten()
    }
}

impl<'a, T> ParIter<'a, T> {
    /// What the slices of this producer hold, oldest first.
    pub closed spec fn slices(&self) -> Seq<Seq<T>> {
        self.slices@
    }

    /// The values one after the other, for a worker that takes them in turn.
    pub fn into_iter(self) -> (it: Iter<'a, T>)
        ensures
            it@ == self@,
    {
        Iter::over(self.slices.into_iter())
    }

    /// Divides the slices in two halves by their number, as
    /// `ParSliceIter::split` does.
    pub fn split(self) -> (halves: (Self, Option<Self>))
        ensures
            match halves.1 {
                Some(right) => {
                    &&& self.slices().len() >= 2
                    &&& halves.0.slices() == self.slices().take(self.slices().len() as int / 2)
                    &&& right.slices() == self.slices().skip(self.slices().len() as int / 2)
                },
                None => self.slices().len() < 2 && halves.0.slices() == self.slices(),
            },
    {
        let (left, right) = self.slices.split();
        let halves = match right {
            Some(right) => (Self { slices: left }, Some(Self { slices: right })),
            None => (Self { slices: left }, None),
        };
        proof {
            let mid = self.slices().len() as int / 2;
            if halves.1 is Some {
                assert(halves.0.slices() =~= self.slices().take(mid));
                assert(halves.1.unwrap().slices() =~= self.slices().skip(mid));
            }
        }
        halves
    }

    /// Folds the values into `init`, oldest first: `f` is called on the
    /// accumulator and a reference to each value in turn.
    pub fn fold_with<A, F: Fn(A, &'a T) -> A>(self, init: A, f: F) -> (result: A)
        requires
            forall|acc: A, value: &'a T| call_requires(f, (acc, value)),
        ensures
            folded(f, init, refs_to(self@), result),
    {
        let mut it = self.into_iter();
        let mut acc = init;
        let ghost all = refs_to::<T>(self@);
        let ghost done = Seq::<&'a T>::empty();
        loop
            invariant
                forall|acc: A, value: &'a T| call_requires(f, (acc, value)),
                all == refs_to::<T>(self@),
                done + refs_to(it@) == all,
                folded(f, init, done, acc),
            decreases it@.len(),
        {
            let ghost before = it@;
            match it.next() {
                Some(value) => {
                    let ghost previous = acc;
                    acc = f(acc, value);
                    proof {
                        lemma_folded_push(f, init, done, previous, value, acc);
                        assert(done.push(value) + refs_to(it@) =~= done + refs_to(before));
                        done = done.push(value);
                    }
                },
                None => {
                    proof {
                        assert(done =~= all);
                    }
                    return acc;
                },
            }
        }
    }
}

impl<'a, T> View for ParIterMut<'a, T> {
    type V = Seq<T>;

    /// The values of this producer, oldest first: what its parts hold now,
    /// concatenated.
    open spec fn view(&self) -> Seq<T> {
        self.parts().map_values(|p: &mut [T]| p@).flatten()
    }
}

impl<'a, T> ParIterMut<'a, T> {
    /// The borrowed slices that the values of this producer lie in, oldest
    /// first.
    pub closed spec fn parts(&self) -> Seq<&'a mut [T]> {
        self.slices.refs()
    }

    /// The values one after the other, for a worker that takes them in turn.
    pub fn into_iter(self) -> (it: IterMut<'a, T>)
        ensures
            it.parts() == self.parts(),
    {
        IterMut::over(SliceIterMut::over(self.slices.into_iter()))
    }

    /// Divides the parts in two halves by their number, as
    /// `ParSliceIterMut::split` does.
    pub fn split(self) -> (halves: (Self, Option<Self>))
        ensures
            match halves.1 {
                Some(right) => {
                    &&& self.parts().len() >= 2
                    &&& halves.0.parts() == self.parts().take(self.parts().len() as int / 2)
                    &&& right.parts() == self.parts().skip(self.parts().len() as int / 2)
                },
                None => self.parts().len() < 2 && halves.0.parts() == self.parts(),
            },
    {
        let (left, right) = self.slices.split();
        match right {
            Some(right) => (Self { slices: left }, Some(Self { slices: right })),
            None => (Self { slices: left }, None),
        }
    }

    /// Folds the values into `init`, oldest first: `f` is called on the
    /// accumulator and a mutable reference to each value in turn.
    ///
    /// The references that `f` is given start at the values of this producer,
    /// and what they end with is what the parts hold in the end, value for
    /// value.
    pub fn fold_with<A, F: Fn(A, &'a mut T) -> A>(self, init: A, f: F) -> (result: A)
        requires
            forall|acc: A, value: &'a mut T| call_requires(f, (acc, value)),
        ensures
            self.parts().map_values(|p: &mut [T]| final(p)@).flatten().len() == self@.len(),
            exists|given: Seq<&'a mut T>|
                {
                    &&& given.len() == self@.len()
                    &&& forall|i: int|
                        #![trigger given[i]]
                        0 <= i < given.len() ==> *given[i] == self@[i] && *final(given[i])
                            == self.parts().map_values(|p: &mut [T]| final(p)@).flatten()[i]
                    &&& folded(f, init, given, result)
                },
    {
        let ghost all_now = self@;
        let ghost all_then = self.parts().map_values(|p: &mut [T]| final(p)@).flatten();
        let mut it = self.into_iter();
        let mut acc = init;
        proof {
            assert(folded(f, init, Seq::<&'a mut T>::empty(), acc));
        }
        loop
            invariant
                forall|acc: A, value: &'a mut T| call_requires(f, (acc, value)),
                all_now == self@,
                all_then == self.parts().map_values(|p: &mut [T]| final(p)@).flatten(),
                it@.len() <= all_now.len(),
                it@ == all_now.skip(all_now.len() - it@.len()),
                it.parts().map_values(|p: &mut [T]| final(p)@).flatten() == all_then.skip(
                    all_now.len() - it@.len(),
                ),
                all_now.len() - it@.len() <= all_then.len(),
                exists|given: Seq<&'a mut T>|
                    {
                        &&& given.len() == all_now.len() - it@.len()
                        &&& forall|i: int|
                            #![trigger given[i]]
                            0 <= i < given.len() ==> *given[i] == all_now[i] && *final(given[i])
                                == all_then[i]
                        &&& folded(f, init, given, acc)
                    },
            decreases it@.len(),
        {
            let ghost k = all_now.len() - it@.len();
            let ghost before = it;
            let ghost given = choose|given: Seq<&'a mut T>|
                {
                    &&& given.len() == k
                    &&& forall|i: int|
                        #![trigger given[i]]
                        0 <= i < given.len() ==> *given[i] == all_now[i] && *final(given[i])
                            == all_then[i]
                    &&& folded(f, init, given, acc)
                };
            match it.next() {
                Some(value) => {
                    let ghost previous = acc;
                    let ghost handed = value;
                    acc = f(acc, value);
                    proof {
                        let seen = choose|x: &'a mut T|
                            *x == *handed && *final(x) == *final(handed) && call_ensures(
                                f,
                                (previous, x),
                                acc,
                            );
                        lemma_folded_push(f, init, given, previous, seen, acc);
                        let more = given.push(seen);
                        let rest_then = it.parts().map_values(|p: &mut [T]| final(p)@).flatten();
                        assert(all_then.skip(k) == seq![*final(handed)] + rest_then);
                        assert(all_then.skip(k).len() == all_then.len() - k);
                        assert((seq![*final(handed)] + rest_then).len() == 1 + rest_then.len());
                        assert(k + 1 <= all_then.len());
                        assert(all_then.skip(k)[0] == *final(handed));
                        assert(all_then[k] == *final(handed));
                        assert forall|j: int| 0 <= j < rest_then.len() implies rest_then[j]
                            == all_then.skip(k + 1)[j] by {
                            assert(rest_then[j] == (seq![*final(handed)] + rest_then)[j + 1]);
                            assert(all_then.skip(k)[j + 1] == all_then[k + 1 + j]);
                        }
                        assert(rest_then =~= all_then.skip(k + 1));
                        assert(it@ =~= all_now.skip(k + 1));
                        assert(all_now.skip(k)[0] == *handed);
                        assert forall|i: int| #![trigger more[i]] 0 <= i < more.len() implies *more[i]
                            == all_now[i] && *final(more[i]) == all_then[i] by {
                            if i < k {
                                assert(more[i] == given[i]);
                            }
                        }
                        assert(more.len() == all_now.len() - it@.len());
                        assert(folded(f, init, more, acc));
                    }
                },
                None => {
                    proof {
                        it.lemma_rest_unchanged();
                        assert(all_then.skip(k) =~= Seq::<T>::empty());
                        assert(all_now.skip(k) =~= Seq::<T>::empty());
                    }
                    return acc;
                },
            }
        }
    }
}

impl<T> SegBuffer<T> {
    /// Returns a parallel iterator over slices in the buffer in order.
    ///
    /// The producer holds the slices of the buffer as they are now, and the
    /// buffer comes back from the borrow with the same slices.
    pub fn par_iter_slices<'a>(&'a mut self) -> (it: ParSliceIter<'a, T>) where T: Send
        requires
            old(self).wf(),
        ensures
            it@ == old(self).slices(),
            final(self).wf(),
            final(self).slices() == old(self).slices(),
            final(self)@ == old(self)@,
            final(self).pushed() == old(self).pushed(),
            final(self).popped() == old(self).popped(),
    {
        ParSliceIter { slices: self.iter_slices() }
    }

    /// Returns a parallel iterator over references to values in the buffer in
    /// order.
    ///
    /// The producer holds the values of the buffer as they are now, and the
    /// buffer comes back from the borrow with the same values.
    pub fn par_iter<'a>(&'a mut self) -> (it: ParIter<'a, T>) where T: Send + Sync
        requires
            old(self).wf(),
        ensures
            it@ == old(self)@,
            it.slices() == old(self).slices(),
            final(self).wf(),
            final(self).slices() == old(self).slices(),
            final(self)@ == old(self)@,
            final(self).pushed() == old(self).pushed(),
            final(self).popped() == old(self).popped(),
    {
        ParIter { slices: self.par_iter_slices() }
    }

    /// Returns a parallel iterator over mutable slices in the buffer in
    /// order.
    ///
    /// The slices start out as the slices of the buffer. What each of them
    /// holds when the borrow ends is what the buffer then holds in its place,
    /// and that is as many values as before.
    pub fn par_iter_slices_mut<'a>(&'a mut self) -> (it: ParSliceIterMut<'a, T>) where T: Send
        requires
            old(self).wf(),
        ensures
            it@ == old(self).slices(),
            final(self).wf(),
            final(self).slices() == it.refs().map_values(|s: &mut [T]| final(s)@),
            same_lengths(final(self).slices(), old(self).slices()),
            final(self).pushed() == old(self).pushed(),
            final(self).popped() == old(self).popped(),
    {
        self.raw.par_iter()
    }

    /// Returns a parallel iterator over mutable references to values in the
    /// buffer in order.
    ///
    /// The references start out at the values of the buffer. What they hold
    /// when the borrow ends is what the buffer then holds, value for value
    /// and slice for slice.
    pub fn par_iter_mut<'a>(&'a mut self) -> (it: ParIterMut<'a, T>) where T: Send
        requires
            old(self).wf(),
        ensures
            it@ == old(self)@,
            final(self).wf(),
            final(self).slices() == it.parts().map_values(|p: &mut [T]| final(p)@),
            same_lengths(final(self).slices(), old(self).slices()),
            final(self).pushed() == old(self).pushed(),
            final(self).popped() == old(self).popped(),
    {
        ParIterMut { slices: self.par_iter_slices_mut() }
    }
}

} // verus!
