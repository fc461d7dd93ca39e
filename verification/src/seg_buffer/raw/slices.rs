//! The contents of the chain as mutable slices, one for each segment.
use super::super::flat::{lemma_flatten_same_lengths, same_lengths};
use super::super::fold::folded;
use super::{RawBuffer, Segment};
use std::collections::VecDeque;
use vstd::prelude::*;

verus! {

/// Hands out the values of a deque as one mutable slice, by
/// `VecDeque::make_contiguous`.
///
/// Taken on trust from the documentation of that method: the slice holds
/// the values of the deque in their order, and what the slice holds when the
/// borrow ends is what the deque then holds. A slice cannot grow or shrink,
/// so it ends with the length it started with.
#[verifier::external_body]
fn contiguous<'a, T>(deque: &'a mut VecDeque<T>) -> (slice: &'a mut [T])
    ensures
        slice@ == old(deque)@,
        final(slice)@.len() == slice@.len(),
        final(deque)@ == final(slice)@,
{
    deque.make_contiguous()
}

/// Borrows the values of each of `segments` as one mutable slice and appends
/// those slices to `slices`, the slice of the last segment first.
fn collect<'a, T>(segments: &'a mut [Segment<T>], slices: &mut Vec<&'a mut [T]>)
    ensures
        final(segments)@.len() == old(segments)@.len(),
        final(slices)@.len() == old(slices)@.len() + old(segments)@.len(),
        forall|i: int| 0 <= i < old(slices)@.len() ==> final(slices)@[i] == old(slices)@[i],
        forall|i: int|
            #![trigger old(segments)@[i]]
            0 <= i < old(segments)@.len() ==> {
                &&& final(slices)@[final(slices)@.len() - 1 - i]@ == old(segments)@[i]@
                &&& final(final(slices)@[final(slices)@.len() - 1 - i])@.len() == old(
                    segments,
                )@[i]@.len()
                &&& final(segments)@[i].holds_instead(
                    old(segments)@[i],
                    final(final(slices)@[final(slices)@.len() - 1 - i])@,
                )
            },
    decreases old(segments)@.len(),
{
    let ghost now = segments@;
    let ghost then = final(segments)@;
    if segments.len() == 0 {
        return ;
    }
    let (first, rest) = segments.split_at_mut(1);
    let ghost first_then = final(first)@;
    let ghost rest_now = rest@;
    let ghost rest_then = final(rest)@;
    collect(rest, slices);
    let ghost mid = slices@;
    let segment: &mut Segment<T> = &mut first[0];
    let slice = contiguous(&mut segment.array);
    slices.push(slice);
    proof {
        let last = slices@.len() - 1;
        assert(then =~= first_then + rest_then);
        assert forall|i: int| #![trigger now[i]] 0 <= i < now.len() implies {
            &&& slices@[last - i]@ == now[i]@
            &&& final(slices@[last - i])@.len() == now[i]@.len()
            &&& then[i].holds_instead(now[i], final(slices@[last - i])@)
        } by {
            if i == 0 {
                assert(then[0] == first_then[0]);
            } else {
                assert(now[i] == rest_now[i - 1]);
                assert(then[i] == rest_then[i - 1]);
                assert(slices@[last - i] == mid[mid.len() - 1 - (i - 1)]);
            }
        }
    }
}

/// The slices of a buffer, one for each segment from the tail on, oldest
/// first, each borrowed for reading and writing.
pub struct RawIter<'a, T> {
    /// The slices that are still to come, the next one last.
    slices: Vec<&'a mut [T]>,
}

impl<'a, T> View for RawIter<'a, T> {
    type V = Seq<Seq<T>>;

    /// What the slices that are still to come hold now, in the order in
    /// which they come.
    open spec fn view(&self) -> Seq<Seq<T>> {
        self.refs().map_values(|s: &mut [T]| s@)
    }
}

impl<'a, T> RawIter<'a, T> {
    /// The slices that are still to come, in the order in which they come.
    pub closed spec fn refs(&self) -> Seq<&'a mut [T]> {
        self.slices@.reverse()
    }

    /// Hands out the next slice.
    pub fn next(&mut self) -> (slice: Option<&'a mut [T]>)
        ensures
            match slice {
                Some(s) => {
                    &&& old(self).refs().len() > 0
                    &&& s == old(self).refs()[0]
                    &&& final(self).refs() == old(self).refs().drop_first()
                },
                None => old(self).refs().len() == 0 && final(self).refs() == old(
                    self,
                ).refs(),
            },
    {
        let slice = self.slices.pop();
        proof {
            assert(self.refs() =~= if slice is Some {
                old(self).refs().drop_first()
            } else {
                old(self).refs()
            });
        }
        slice
    }

    /// A slice that is never handed out ends as it is: once nothing can use
    /// the iterator any more, what is left in it stays unchanged.
    pub proof fn lemma_rest_unchanged(self)
        requires
            has_resolved(self),
        ensures
            forall|i: int|
                #![trigger self.refs()[i]]
                0 <= i < self.refs().len() ==> final(self.refs()[i])@
                    == self.refs()[i]@,
    {
        broadcast use vstd::std_specs::vec::axiom_vec_has_resolved;

        assert forall|i: int|
            #![trigger self.refs()[i]]
            0 <= i < self.refs().len() implies final(self.refs()[i])@
            == self.refs()[i]@ by {
            let k = self.slices@.len() - 1 - i;
            assert(self.refs()[i] == self.slices@[k]);
            assert(has_resolved(self.slices));
            assert(has_resolved(self.slices@[k]));
        }
    }
}

/// The mutable slices of a buffer as a producer that can be split in two
/// and folded, for a scheduler that hands the halves to different workers.
pub struct ParRawIter<'a, T> {
    raw: RawIter<'a, T>,
}

impl<'a, T> View for ParRawIter<'a, T> {
    type V = Seq<Seq<T>>;

    /// What the slices of this producer hold now, oldest first.
    open spec fn view(&self) -> Seq<Seq<T>> {
        self.refs().map_values(|s: &mut [T]| s@)
    }
}

impl<'a, T> ParRawIter<'a, T> {
    /// The slices that this producer holds, oldest first.
    pub closed spec fn refs(&self) -> Seq<&'a mut [T]> {
        self.raw.refs()
    }

    /// The slices one after the other, for a worker that takes them in turn.
    pub fn into_iter(self) -> (it: RawIter<'a, T>)
        ensures
            it.refs() == self.refs(),
    {
        self.raw
    }

    /// Divides the slices in two halves by their number. A producer of fewer
    /// than two slices is not divided: it comes back whole, with `None`.
    /// Otherwise the first half of the slices, rounded down, goes to the left
    /// and the others go to the right.
    pub fn split(self) -> (halves: (Self, Option<Self>))
        ensures
            match halves.1 {
                Some(right) => {
                    &&& self.refs().len() >= 2
                    &&& halves.0.refs() == self.refs().take(self.refs().len() as int / 2)
                    &&& right.refs() == self.refs().skip(self.refs().len() as int / 2)
                },
                None => self.refs().len() < 2 && halves.0.refs() == self.refs(),
            },
    {
        let len = self.raw.slices.len();
        if len < 2 {
            return (self, None);
        }
        let mut right = self.raw.slices;
        let left = right.split_off(len - len / 2);
        let halves = (
            Self { raw: RawIter { slices: left } },
            Some(Self { raw: RawIter { slices: right } }),
        );
        proof {
            assert(halves.0.refs() =~= self.refs().take(len as int / 2));
            assert(halves.1.unwrap().refs() =~= self.refs().skip(len as int / 2));
        }
        halves
    }

    /// Folds the slices into `init`, oldest first: `f` is called on the
    /// accumulator and each slice in turn.
    ///
    /// The references that `f` is given are the slices of this producer
    /// borrowed anew: each starts with the values of its slice and leaves
    /// that slice with the values it ends with.
    pub fn fold_with<A, F: Fn(A, &'a mut [T]) -> A>(self, init: A, f: F) -> (result: A)
        requires
            forall|acc: A, slice: &'a mut [T]| call_requires(f, (acc, slice)),
        ensures
            exists|given: Seq<&'a mut [T]>|
                {
                    &&& given.len() == self.refs().len()
                    &&& forall|i: int|
                        #![trigger given[i]]
                        0 <= i < given.len() ==> given[i]@ == self.refs()[i]@ && final(given[i])@
                            == final(self.refs()[i])@
                    &&& folded(f, init, given, result)
                },
        decreases self.refs().len(),
    {
        let mut slices = self.raw.slices;
        match slices.pop() {
            None => {
                proof {
                    let given = Seq::<&'a mut [T]>::empty();
                    assert(given.len() == self.refs().len());
                    assert(folded(f, init, given, init));
                }
                init
            },
            Some(slice) => {
                let ghost handed = slice;
                let next = f(init, slice);
                let rest = Self { raw: RawIter { slices } };
                let result = rest.fold_with(next, f);
                proof {
                    let seen = choose|x: &'a mut [T]|
                        x@ == handed@ && final(x)@ == final(handed)@ && call_ensures(
                            f,
                            (init, x),
                            next,
                        );
                    let others = choose|given: Seq<&'a mut [T]>|
                        {
                            &&& given.len() == rest.refs().len()
                            &&& forall|i: int|
                                #![trigger given[i]]
                                0 <= i < given.len() ==> given[i]@ == rest.refs()[i]@
                                    && final(given[i])@ == final(rest.refs()[i])@
                            &&& folded(f, next, given, result)
                        };
                    let given = seq![seen] + others;
                    assert(self.refs() =~= seq![handed] + rest.refs());
                    assert(given.drop_first() =~= others);
                    assert(call_ensures(f, (init, given[0]), next));
                    assert forall|i: int| #![trigger given[i]] 0 <= i < given.len() implies given[i]@
                        == self.refs()[i]@ && final(given[i])@ == final(self.refs()[i])@ by {
                        if i > 0 {
                            assert(given[i] == others[i - 1]);
                            assert(self.refs()[i] == rest.refs()[i - 1]);
                        }
                    }
                    assert(folded(f, init, given, result));
                }
                result
            },
        }
    }

    /// A slice that no worker is given ends as it is: once nothing can use
    /// the producer any more, what is left in it stays unchanged.
    pub proof fn lemma_rest_unchanged(self)
        requires
            has_resolved(self),
        ensures
            forall|i: int|
                #![trigger self.refs()[i]]
                0 <= i < self.refs().len() ==> final(self.refs()[i])@
                    == self.refs()[i]@,
    {
        self.raw.lemma_rest_unchanged();
    }
}

impl<T> RawBuffer<T> {
    /// Borrows the contents as mutable slices, one for each segment from the
    /// tail on, oldest first.
    ///
    /// The slices start out with what the segments hold, and what they hold
    /// when the borrow ends is what the buffer then holds: values can be
    /// rewritten in place, and none is added or removed.
    pub fn iter<'a>(&'a mut self) -> (it: RawIter<'a, T>)
        requires
            old(self).wf(),
        ensures
            it@ == old(self).slices(),
            final(self).wf(),
            final(self).slices() == it.refs().map_values(|s: &mut [T]| final(s)@),
            same_lengths(final(self).slices(), old(self).slices()),
            final(self).pushed() == old(self).pushed(),
            final(self).popped() == old(self).popped(),
    {
        let ghost now = *self;
        let ghost then = *final(self);
        let tail = self.tail;
        let (retired, live) = self.segments.as_mut_slice().split_at_mut(tail);
        let ghost live_now = live@;
        let ghost live_then = final(live)@;
        let mut slices = Vec::new();
        collect(live, &mut slices);
        proof {
            assert(then.segments@ =~= now.segments@.subrange(0, tail as int) + live_then);
            assert(live_now =~= now.segments@.subrange(tail as int, now.segments@.len() as int));
            let last = slices@.len() - 1;
            assert forall|i: int| 0 <= i < live_now.len() implies #[trigger] live_then[i].holds_instead(
                live_now[i],
                final(slices@[last - i])@,
            ) && slices@[last - i]@ == live_now[i]@ && final(slices@[last - i])@.len()
                == live_now[i]@.len() by {
                let s = live_now[i];
            }
            assert forall|i: int| 0 <= i < then.segments@.len() implies #[trigger] then.seg_inv(
                i,
            ) by {
                assert(now.seg_inv(i));
                if i >= tail {
                    assert(live_then[i - tail].holds_instead(
                        live_now[i - tail],
                        final(slices@[last - (i - tail)])@,
                    ));
                }
                if i > tail {
                    assert(live_then[i - 1 - tail].holds_instead(
                        live_now[i - 1 - tail],
                        final(slices@[last - (i - 1 - tail)])@,
                    ));
                } else if i > 0 {
                    assert(then.segments@[i - 1] == now.segments@[i - 1]);
                }
            }
            assert forall|i: int| 0 <= i < now.slices().len() implies #[trigger] now.slices()[i].len()
                == then.slices()[i].len() by {
                assert(live_then[i].holds_instead(live_now[i], final(slices@[last - i])@));
            }
            lemma_flatten_same_lengths(now.slices(), then.slices());
            assert(live_then[now.head - tail].holds_instead(
                live_now[now.head - tail],
                final(slices@[last - (now.head - tail)])@,
            ));
            assert(live_then[0].holds_instead(live_now[0], final(slices@[last])@));
            let refs = slices@.reverse();
            assert forall|i: int| #![trigger refs[i]] 0 <= i < refs.len() implies refs[i]@
                == now.slices()[i] && then.slices()[i] == final(refs[i])@ by {
                assert(refs[i] == slices@[last - i]);
                assert(live_then[i].holds_instead(live_now[i], final(slices@[last - i])@));
            }
            assert(refs.map_values(|s: &mut [T]| s@) =~= now.slices());
            assert(then.slices() =~= refs.map_values(|s: &mut [T]| final(s)@));
        }
        RawIter { slices }
    }

    /// Borrows the contents as mutable slices, as `iter` does, for a
    /// producer that can be split and folded.
    pub fn par_iter<'a>(&'a mut self) -> (it: ParRawIter<'a, T>)
        requires
            old(self).wf(),
        ensures
            it@ == old(self).slices(),
            final(self).wf(),
            final(self).slices() == it.refs().map_values(|s: &mut [T]| final(s)@),
            same_lengths(final(self).slices(), old(self).slices()),
            final(self).pushed() == old(self).pushed(),
            final(self).popped() == old(self).popped(),
    {
        ParRawIter { raw: self.iter() }
    }
}

} // verus!
