//! Iteration over a buffer: its slices one after the other, and its values
//! one after the other, for reading and for writing in place.
use super::flat::{lemma_flatten_skip_empty, lemma_flatten_take_first, same_lengths};
use super::raw::RawIter;
use super::SegBuffer;
use std::collections::VecDeque;
use vstd::prelude::*;

verus! {

impl<T> SegBuffer<T> {
    /// Returns an iterator over slices in the buffer in order.
    ///
    /// The iterator yields the slices of the buffer as they are now, and the
    /// buffer comes back from the borrow with the same slices.
    pub fn iter_slices<'a>(&'a mut self) -> (it: SliceIter<'a, T>)
        requires
            old(self).wf(),
        ensures
            it@ == old(self).slices(),
            final(self).wf(),
            final(self).slices() == old(self).slices(),
            final(self)@ == old(self)@,
            final(self).pushed() == old(self).pushed(),
            final(self).popped() == old(self).popped(),
    {
        let ghost then = *final(self);
        let mut raw = self.raw.iter();
        let ghost refs = raw.refs();
        let mut slices: VecDeque<&'a [T]> = VecDeque::new();
        loop
            invariant
                refs.map_values(|s: &mut [T]| s@) == old(self).slices(),
                then.slices() == refs.map_values(|s: &mut [T]| final(s)@),
                slices@.len() <= refs.len(),
                raw.refs() == refs.skip(slices@.len() as int),
                forall|i: int|
                    #![trigger refs[i]]
                    0 <= i < slices@.len() ==> slices@[i]@ == refs[i]@ && final(refs[i])@
                        == refs[i]@,
            ensures
                slices@.len() == refs.len(),
            decreases refs.len() - slices@.len(),
        {
            match raw.next() {
                Some(slice) => {
                    let shared: &'a [T] = slice;
                    slices.push_back(shared);
                    proof {
                        assert(raw.refs() =~= refs.skip(slices@.len() as int));
                    }
                },
                None => {
                    break ;
                },
            }
        }
        let it = SliceIter { slices };
        proof {
            assert forall|i: int| 0 <= i < refs.len() implies #[trigger] it@[i] == old(
                self,
            ).slices()[i] && then.slices()[i] == old(self).slices()[i] by {
                assert(refs.map_values(|s: &mut [T]| s@)[i] == refs[i]@);
                assert(refs.map_values(|s: &mut [T]| final(s)@)[i] == final(refs[i])@);
            }
            assert(it@ =~= old(self).slices());
            assert(then.slices() =~= old(self).slices());
        }
        it
    }

    /// Returns an iterator over references to values in the buffer in order.
    ///
    /// The iterator yields the values of the buffer as they are now, and the
    /// buffer comes back from the borrow with the same values.
    pub fn iter<'a>(&'a mut self) -> (it: Iter<'a, T>)
        requires
            old(self).wf(),
        ensures
            it@ == old(self)@,
            final(self).wf(),
            final(self).slices() == old(self).slices(),
            final(self)@ == old(self)@,
            final(self).pushed() == old(self).pushed(),
            final(self).popped() == old(self).popped(),
    {
        Iter::over(self.iter_slices())
    }

    /// Returns an iterator over mutable slices in the buffer in order.
    ///
    /// The slices start out as the slices of the buffer. What each of them
    /// holds when the borrow ends is what the buffer then holds in its place,
    /// and that is as many values as before.
    pub fn iter_slices_mut<'a>(&'a mut self) -> (it: SliceIterMut<'a, T>)
        requires
            old(self).wf(),
        ensures
            it@ == old(self).slices(),
            final(self).wf(),
            final(self).slices() == it.refs().map_values(|s: &mut [T]| final(s)@),
            same_lengths(final(self).slices(), old(self).slices()),
            final(self).pushed() == old(self).pushed(),
            final(self).popped() == old(self).popped(),
    {
        SliceIterMut::over(self.raw.iter())
    }

    /// Returns an iterator over mutable references to values in the buffer in
    /// order.
    ///
    /// The references start out at the values of the buffer. What they hold
    /// when the borrow ends is what the buffer then holds, value for value
    /// and slice for slice.
    pub fn iter_mut<'a>(&'a mut self) -> (it: IterMut<'a, T>)
        requires
            old(self).wf(),
        ensures
            it@ == old(self)@,
            final(self).wf(),
            final(self).slices() == it.parts().map_values(|p: &mut [T]| final(p)@),
            same_lengths(final(self).slices(), old(self).slices()),
            final(self).pushed() == old(self).pushed(),
            final(self).popped() == old(self).popped(),
    {
        IterMut::over(self.iter_slices_mut())
    }
}

/// An iterator over the slices of a `SegBuffer`, oldest first.
pub struct SliceIter<'a, T> {
    slices: VecDeque<&'a [T]>,
}

impl<'a, T> View for SliceIter<'a, T> {
    type V = Seq<Seq<T>>;

    /// What the slices that are still to come hold, in the order in which
    /// they come.
    open spec fn view(&self) -> Seq<Seq<T>> {
        self.refs().map_values(|s: &[T]| s@)
    }
}

impl<'a, T> SliceIter<'a, T> {
    /// The slices that are still to come, in the order in which they come.
    pub closed spec fn refs(&self) -> Seq<&'a [T]> {
        self.slices@
    }

    /// The number of slices that are still to come.
    pub fn len(&self) -> (len: usize)
        ensures
            len == self.refs().len(),
    {
        self.slices.len()
    }

    /// Yields the next slice.
    pub fn next(&mut self) -> (slice: Option<&'a [T]>)
        ensures
            match slice {
                Some(s) => {
                    &&& old(self).refs().len() > 0
                    &&& s == old(self).refs()[0]
                    &&& s@ == old(self)@[0]
                    &&& final(self).refs() == old(self).refs().drop_first()
                    &&& final(self)@ == old(self)@.drop_first()
                },
                None => old(self).refs().len() == 0 && final(self).refs() == old(self).refs(),
            },
    {
        let slice = self.slices.pop_front();
        proof {
            if slice is Some {
                assert(self@ =~= old(self)@.drop_first());
            }
        }
        slice
    }

    /// Keeps the first `at` of the slices that are still to come and hands
    /// the others back as an iterator of their own.
    pub fn split_off(&mut self, at: usize) -> (rest: Self)
        requires
            at <= old(self).refs().len(),
        ensures
            final(self).refs() == old(self).refs().take(at as int),
            rest.refs() == old(self).refs().skip(at as int),
    {
        let slices = self.slices.split_off(at);
        Self { slices }
    }
}

/// An iterator over references to the values of a `SegBuffer`, oldest
/// first: its slices, flattened.
pub struct Iter<'a, T> {
    /// The slices after the current one.
    slices: SliceIter<'a, T>,
    /// What is left of the slice that values are taken from.
    current: &'a [T],
}

impl<'a, T> View for Iter<'a, T> {
    type V = Seq<T>;

    /// The values that are still to come, in the order in which they come.
    closed spec fn view(&self) -> Seq<T> {
        self.current@ + self.slices@.flatten()
    }
}

impl<'a, T> Iter<'a, T> {
    /// The values of the given slices, one after the other.
    pub fn over(slices: SliceIter<'a, T>) -> (it: Self)
        ensures
            it@ == slices@.flatten(),
    {
        let current: &'a [T] = &[];
        Iter { slices, current }
    }

    /// Yields a reference to the next value.
    pub fn next(&mut self) -> (value: Option<&'a T>)
        ensures
            match value {
                Some(v) => {
                    &&& old(self)@.len() > 0
                    &&& *v == old(self)@[0]
                    &&& final(self)@ == old(self)@.drop_first()
                },
                None => old(self)@.len() == 0 && final(self)@ == old(self)@,
            },
    {
        loop
            invariant
                self@ == old(self)@,
            decreases self.slices@.len(),
        {
            if self.current.len() > 0 {
                let (first, rest) = self.current.split_at(1);
                self.current = rest;
                proof {
                    assert(self@ =~= old(self)@.drop_first());
                }
                return Some(&first[0]);
            }
            let ghost before = self.slices@;
            match self.slices.next() {
                Some(slice) => {
                    self.current = slice;
                    proof {
                        assert(before.flatten() =~= before[0] + before.drop_first().flatten());
                        assert(self@ =~= old(self)@);
                    }
                },
                None => {
                    proof {
                        assert(self@ =~= old(self)@);
                    }
                    return None;
                },
            }
        }
    }
}

/// An iterator over the slices of a `SegBuffer`, oldest first, each borrowed
/// for reading and writing.
pub struct SliceIterMut<'a, T> {
    raw: RawIter<'a, T>,
}

impl<'a, T> View for SliceIterMut<'a, T> {
    type V = Seq<Seq<T>>;

    /// What the slices that are still to come hold now, in the order in
    /// which they come.
    open spec fn view(&self) -> Seq<Seq<T>> {
        self.refs().map_values(|s: &mut [T]| s@)
    }
}

impl<'a, T> SliceIterMut<'a, T> {
    /// The slices that are still to come, in the order in which they come.
    pub closed spec fn refs(&self) -> Seq<&'a mut [T]> {
        self.raw.refs()
    }

    /// The given slices, one after the other.
    pub fn over(raw: RawIter<'a, T>) -> (it: Self)
        ensures
            it.refs() == raw.refs(),
    {
        SliceIterMut { raw }
    }

    /// Yields the next slice.
    pub fn next(&mut self) -> (slice: Option<&'a mut [T]>)
        ensures
            match slice {
                Some(s) => {
                    &&& old(self).refs().len() > 0
                    &&& s == old(self).refs()[0]
                    &&& final(self).refs() == old(self).refs().drop_first()
                },
                None => old(self).refs().len() == 0 && final(self).refs() == old(
                    self,
                ).refs(),
            },
    {
        self.raw.next()
    }

    /// A slice that is never yielded ends as it is: once nothing can use the
    /// iterator any more, what is left in it stays unchanged.
    pub proof fn lemma_rest_unchanged(self)
        requires
            has_resolved(self),
        ensures
            forall|i: int|
                #![trigger self.refs()[i]]
                0 <= i < self.refs().len() ==> final(self.refs()[i])@
                    == self.refs()[i]@,
    {
        self.raw.lemma_rest_unchanged();
    }
}

/// An iterator over mutable references to the values of a `SegBuffer`,
/// oldest first: its mutable slices, flattened.
pub struct IterMut<'a, T> {
    /// The slices after the current one.
    slices: SliceIterMut<'a, T>,
    /// What is left of the slice that values are taken from, if one was
    /// started.
    current: Option<&'a mut [T]>,
}

impl<'a, T> View for IterMut<'a, T> {
    type V = Seq<T>;

    /// The values that are still to come, in the order in which they come:
    /// what the parts hold now.
    open spec fn view(&self) -> Seq<T> {
        self.parts().map_values(|p: &mut [T]| p@).flatten()
    }
}

impl<'a, T> IterMut<'a, T> {
    /// The borrowed slices that the values still to come lie in: what is
    /// left of the current slice, then the slices after it.
    pub closed spec fn parts(&self) -> Seq<&'a mut [T]> {
        match self.current {
            Some(c) => seq![c] + self.slices.refs(),
            None => self.slices.refs(),
        }
    }

    /// The values of the given slices, one after the other.
    pub fn over(slices: SliceIterMut<'a, T>) -> (it: Self)
        ensures
            it.parts() == slices.refs(),
    {
        IterMut { slices, current: None }
    }

    /// A value that is never yielded ends as it is: once nothing can use the
    /// iterator any more, the parts that are left in it stay unchanged.
    pub proof fn lemma_rest_unchanged(self)
        requires
            has_resolved(self),
        ensures
            self.parts().map_values(|p: &mut [T]| final(p)@) == self.parts().map_values(
                |p: &mut [T]| p@,
            ),
    {
        self.slices.lemma_rest_unchanged();
        let now = self.parts().map_values(|p: &mut [T]| p@);
        let then = self.parts().map_values(|p: &mut [T]| final(p)@);
        assert forall|i: int| 0 <= i < now.len() implies #[trigger] then[i] == now[i] by {
            match self.current {
                Some(c) => {
                    if i > 0 {
                        let h = self.slices.refs()[i - 1];
                    }
                },
                None => {
                    let h = self.slices.refs()[i];
                },
            }
        }
        assert(then =~= now);
    }

    /// Yields a mutable reference to the next value.
    ///
    /// What the parts hold in the end is what the value behind the yielded
    /// reference ends as, followed by what the parts that are left hold in
    /// the end.
    pub fn next(&mut self) -> (value: Option<&'a mut T>)
        ensures
            match value {
                Some(v) => {
                    &&& old(self)@.len() > 0
                    &&& *v == old(self)@[0]
                    &&& final(self)@ == old(self)@.drop_first()
                    &&& old(self).parts().map_values(|p: &mut [T]| final(p)@).flatten() == seq![
                        *final(v),
                    ] + final(self).parts().map_values(|p: &mut [T]| final(p)@).flatten()
                },
                None => {
                    &&& old(self)@.len() == 0
                    &&& final(self)@ == old(self)@
                    &&& old(self).parts().map_values(|p: &mut [T]| final(p)@).flatten()
                        == final(self).parts().map_values(|p: &mut [T]| final(p)@).flatten()
                },
            },
    {
        loop
            invariant
                self@ == old(self)@,
                self.parts().map_values(|p: &mut [T]| final(p)@).flatten() == old(
                    self,
                ).parts().map_values(|p: &mut [T]| final(p)@).flatten(),
            decreases self.slices.refs().len(),
        {
            let ghost before = self.parts();
            let ghost refs = self.slices.refs();
            match self.current.take() {
                Some(slice) => {
                    if slice.len() > 0 {
                        let (first, rest) = slice.split_at_mut(1);
                        let ghost first_then = final(first)@;
                        self.current = Some(rest);
                        let value = &mut first[0];
                        proof {
                            let now0 = before.map_values(|p: &mut [T]| p@);
                            let now1 = self.parts().map_values(|p: &mut [T]| p@);
                            let then0 = before.map_values(|p: &mut [T]| final(p)@);
                            let then1 = self.parts().map_values(|p: &mut [T]| final(p)@);
                            assert(now1 =~= now0.update(0, now0[0].drop_first()));
                            lemma_flatten_take_first(now0);
                            assert(then0.drop_first() =~= then1.drop_first());
                            assert(first_then =~= seq![*final(value)]);
                            assert(then0[0] =~= seq![*final(value)] + then1[0]);
                            assert(then0.flatten() =~= seq![*final(value)] + then1.flatten());
                        }
                        return Some(value);
                    }
                    proof {
                        let now0 = before.map_values(|p: &mut [T]| p@);
                        let now1 = self.parts().map_values(|p: &mut [T]| p@);
                        let then0 = before.map_values(|p: &mut [T]| final(p)@);
                        let then1 = self.parts().map_values(|p: &mut [T]| final(p)@);
                        assert(now1 =~= now0.drop_first());
                        assert(then1 =~= then0.drop_first());
                        lemma_flatten_skip_empty(now0);
                        lemma_flatten_skip_empty(then0);
                    }
                },
                None => {},
            }
            self.current = self.slices.next();
            proof {
                assert(self.parts() =~= refs);
            }
            if self.current.is_none() {
                proof {
                    assert(self@ =~= Seq::<T>::empty());
                }
                return None;
            }
        }
    }
}

} // verus!
