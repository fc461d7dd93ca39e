//! Pushing by steps.
//!
//! A push is made of steps that each read or change the chain in one place:
//! reading the head, claiming a slot, reading a link, moving the head on with
//! a compare-and-swap, linking a new segment with a compare-and-swap.
//! `RawBuffer::push` takes the steps of one push at once. `RawBuffer::step`
//! takes one of them, so that the pushes of several producers can take their
//! steps in turns: whatever the turns are, the chain stays sound and every
//! value is appended once, at the step that stores it.
use super::super::flat::lemma_flatten_push_last;
use super::super::model::{
    at_boundary, lemma_boundary_of_capacity, lemma_push_appends, slices_after_push,
    STARTING_SIZE,
};
use super::{new_segment, RawBuffer, Segment};
use vstd::prelude::*;

verus! {

/// How far a push has come, with the value while it is not stored.
enum Stage<T> {
    /// Nothing is done yet: the head is read next.
    Start(T),
    /// The head was read: a slot of that segment is claimed next.
    Claim(usize, T),
    /// The segment had no slot left: its link is read next.
    Full(usize, T),
    /// The segment has a successor: the head is moved on to it next.
    Advance(usize, usize, T),
    /// The segment had no successor and one was allocated: it is linked next.
    Link(usize, Segment<T>, T),
    /// The value is stored.
    Done,
}

/// A push under way: the value to push, and how far the push has come.
///
/// A push takes its steps one at a time, and each step reads or changes the
/// chain in one place. Pushes of several producers may take their steps in
/// turns, in any order.
pub struct Push<T> {
    stage: Stage<T>,
}

impl<T> Push<T> {
    /// The value that is still to be stored, or `None` once it is.
    pub closed spec fn value(&self) -> Option<T> {
        match self.stage {
            Stage::Start(value) => Some(value),
            Stage::Claim(_, value) => Some(value),
            Stage::Full(_, value) => Some(value),
            Stage::Advance(_, _, value) => Some(value),
            Stage::Link(_, _, value) => Some(value),
            Stage::Done => None,
        }
    }

    /// The value is stored: the push has no step left to take.
    pub open spec fn done(&self) -> bool {
        self.value() is None
    }

    /// Whether the push has no step left to take.
    pub fn is_done(&self) -> (done: bool)
        ensures
            done == self.done(),
    {
        match &self.stage {
            Stage::Done => true,
            _ => false,
        }
    }
}

impl<T> RawBuffer<T> {
    /// The head segment has no slot left exactly when the number of values
    /// pushed is at a boundary.
    proof fn lemma_head_closed_at_boundary(&self)
        requires
            self.wf(),
        ensures
            self.segments@[self.head as int].is_closed() == at_boundary(self.pushed()),
    {
        assert(self.seg_inv(self.head as int));
        let h = self.segments@[self.head as int];
        lemma_boundary_of_capacity(h.capacity as nat);
        if self.head == 0 && h.front == 0 {
            assert(!at_boundary(0nat));
        }
    }

    /// What `later` keeps of the segment with handle `i` of this chain: its
    /// capacity, and that it is closed if it is.
    closed spec fn kept(&self, later: &Self, i: int) -> bool {
        &&& later.segments@[i].capacity == self.segments@[i].capacity
        &&& self.segments@[i].is_closed() ==> later.segments@[i].is_closed()
    }

    /// The chain `later` is what this chain can become by steps of pushes:
    /// it has the segments of this chain, with the same capacities, its head
    /// is not further back, and what was closed is still closed.
    pub closed spec fn grows_to(&self, later: &Self) -> bool {
        &&& self.segments@.len() <= later.segments@.len()
        &&& self.head <= later.head
        &&& forall|i: int| 0 <= i < self.segments@.len() ==> #[trigger] self.kept(later, i)
    }

    /// The push can take its next step on this chain: the segments that it
    /// has read are segments of this chain, not beyond the head, and what it
    /// found of them still holds.
    pub closed spec fn admits(&self, push: &Push<T>) -> bool {
        match push.stage {
            Stage::Start(_) => true,
            Stage::Claim(head, _) => head <= self.head,
            Stage::Full(head, _) => head <= self.head && self.segments@[head as int].is_closed(),
            Stage::Advance(head, next, _) => {
                &&& head <= self.head
                &&& self.segments@[head as int].is_closed()
                &&& next == head + 1
                &&& next < self.segments@.len()
            },
            Stage::Link(head, fresh, _) => {
                &&& head <= self.head
                &&& self.segments@[head as int].is_closed()
                &&& fresh.is_fresh(2 * self.segments@[head as int].capacity)
            },
            Stage::Done => true,
        }
    }

    /// How many steps a push takes that reads the head next and is left
    /// alone: two if the head has a slot left, and four more to move the head
    /// on, and four more to link a segment before that.
    closed spec fn round(&self) -> nat {
        if !self.segments@[self.head as int].is_closed() {
            2
        } else if self.head + 1 < self.segments@.len() {
            6
        } else {
            10
        }
    }

    /// How many steps the push has left to take if it is left alone: if no
    /// other push takes a step before it is done.
    pub closed spec fn steps_left(&self, push: &Push<T>) -> nat {
        match push.stage {
            Stage::Start(_) => self.round(),
            Stage::Claim(head, _) => if head == self.head {
                (self.round() - 1) as nat
            } else {
                self.round() + 3
            },
            Stage::Full(head, _) => if head == self.head {
                (self.round() - 2) as nat
            } else {
                self.round() + 2
            },
            Stage::Advance(head, _, _) => if head == self.head {
                3
            } else {
                self.round() + 1
            },
            Stage::Link(head, _, _) => if head + 1 == self.segments@.len() {
                7
            } else {
                self.round() + 1
            },
            Stage::Done => 0,
        }
    }

    /// A push of `value` that has taken no step yet.
    pub closed spec fn begun(&self, value: T) -> Push<T> {
        Push { stage: Stage::Start(value) }
    }

    /// No push is ever far from its end: wherever the pushes of others have
    /// left the chain, a push that is left alone from there on is done after
    /// thirteen steps at most, and a push that has taken no step yet after
    /// ten. Only a push that is done has no step left.
    pub proof fn lemma_steps_left(&self, push: &Push<T>)
        requires
            self.sound(),
            self.admits(push),
        ensures
            self.steps_left(push) <= 13,
            (self.steps_left(push) == 0) == push.done(),
            forall|value: T| #[trigger] self.steps_left(&self.begun(value)) <= 10,
    {
        assert(self.seg_inv(self.head as int));
    }

    /// The steps of one push do not get in the way of another: a push that
    /// can take its next step on a chain can take it on whatever that chain
    /// grows to.
    pub proof fn lemma_admits_stable(&self, later: &Self, push: &Push<T>)
        requires
            self.sound(),
            later.sound(),
            self.grows_to(later),
            self.admits(push),
        ensures
            later.admits(push),
    {
        match push.stage {
            Stage::Start(_) => {},
            Stage::Claim(head, _) => {},
            Stage::Full(head, _) => {
                assert(self.kept(later, head as int));
            },
            Stage::Advance(head, next, _) => {
                assert(self.kept(later, head as int));
            },
            Stage::Link(head, fresh, _) => {
                assert(self.kept(later, head as int));
            },
            Stage::Done => {},
        }
    }

    /// A chain grows to itself.
    pub proof fn lemma_grows_to_self(&self)
        ensures
            self.grows_to(self),
    {
        assert forall|i: int| 0 <= i < self.segments@.len() implies #[trigger] self.kept(
            self,
            i,
        ) by {}
    }

    /// A chain grows to what a chain that it grows to grows to.
    pub proof fn lemma_grows_on(&self, between: &Self, later: &Self)
        requires
            self.grows_to(between),
            between.grows_to(later),
        ensures
            self.grows_to(later),
    {
        assert forall|i: int| 0 <= i < self.segments@.len() implies #[trigger] self.kept(
            later,
            i,
        ) by {
            assert(self.kept(between, i));
            assert(between.kept(later, i));
        }
    }

    /// Starts a push of `value`. Nothing is done to the chain yet.
    pub fn begin(&self, value: T) -> (push: Push<T>)
        ensures
            push == self.begun(value),
            self.admits(&push),
            push.value() == Some(value),
    {
        Push { stage: Stage::Start(value) }
    }

    /// Whether the chain is settled: whether no push is under way that has
    /// linked a segment and not yet stored its value there.
    pub fn is_settled(&self) -> (settled: bool)
        requires
            self.sound(),
        ensures
            settled == self.settled(),
    {
        self.head == self.segments.len() - 1 && (self.head == 0 || self.segments[self.head].front
            > 0)
    }

    /// Compare-and-swap on the head: moves it from `from` on to `to`, the
    /// successor of `from`, unless the head is no longer `from`.
    fn advance_head(&mut self, from: usize, to: usize) -> (moved: bool)
        requires
            old(self).sound(),
            old(self).segments@.len() > from,
            old(self).segments@[from as int].next == Some(to),
        ensures
            final(self).sound(),
            moved == (old(self).head == from),
            moved ==> !final(self).segments@[to as int].is_closed(),
            final(self).head == (if moved {
                to
            } else {
                old(self).head
            }),
            final(self).tail == old(self).tail,
            final(self).segments == old(self).segments,
            final(self).slices() == old(self).slices(),
            final(self).pushed() == old(self).pushed(),
            final(self).popped() == old(self).popped(),
    {
        proof {
            assert(self.seg_inv(from as int));
        }
        if self.head == from {
            self.head = to;
            proof {
                assert(old(self).seg_inv(to as int));
                assert(old(self).seg_inv(from as int));
                assert forall|i: int| 0 <= i < self.segments@.len() implies #[trigger] self.seg_inv(
                    i,
                ) by {
                    assert(old(self).seg_inv(i));
                }
                assert(self.slices() =~= old(self).slices());
            }
            true
        } else {
            false
        }
    }

    /// Compare-and-swap on the `next` link of the segment `at`: installs
    /// `fresh` as its successor if it has none yet. Returns the successor
    /// that `at` has afterwards. A segment that came too late is not linked
    /// anywhere: it is released here, and the caller goes on with the one that
    /// was there first.
    fn link(&mut self, at: usize, fresh: Segment<T>) -> (next: usize)
        requires
            old(self).sound(),
            at <= old(self).head,
            old(self).segments@[at as int].is_closed(),
            fresh.is_fresh(2 * old(self).segments@[at as int].capacity),
        ensures
            final(self).sound(),
            old(self).grows_to(final(self)),
            next == at + 1,
            final(self).segments@[at as int].next == Some(next),
            final(self).head == old(self).head,
            final(self).tail == old(self).tail,
            final(self).segments@.len() == (if old(self).segments@[at as int].next is None {
                old(self).segments@.len() + 1
            } else {
                old(self).segments@.len()
            }),
            final(self).slices() == (if old(self).segments@[at as int].next is None {
                old(self).slices().push(Seq::<T>::empty())
            } else {
                old(self).slices()
            }),
            final(self).pushed() == old(self).pushed(),
            final(self).popped() == old(self).popped(),
    {
        proof {
            assert(self.seg_inv(at as int));
            assert forall|i: int| 0 <= i < self.segments@.len() implies #[trigger] self.kept(
                self,
                i,
            ) by {}
        }
        match self.segments[at].next {
            Some(existing) => existing,
            None => {
                let handle = self.segments.len();
                let mut fresh = fresh;
                fresh.prev = Some(at);
                self.segments.push(fresh);
                self.segments[at].next = Some(handle);
                proof {
                    assert forall|i: int| 0 <= i < self.segments@.len() implies #[trigger] self.seg_inv(
                        i,
                    ) by {
                        if i < old(self).segments@.len() {
                            assert(old(self).seg_inv(i));
                        }
                    }
                    assert forall|i: int| 0 <= i < old(self).segments@.len() implies #[trigger] old(
                        self,
                    ).kept(self, i) by {}
                    assert(self.segments@[handle as int]@ =~= Seq::<T>::empty());
                    assert(self.slices() =~= old(self).slices().push(Seq::<T>::empty()));
                    old(self).slices().lemma_flatten_push(Seq::<T>::empty());
                }
                handle
            },
        }
    }

    /// Takes the next step of `push`, with everything that the chain does in
    /// answer to it.
    fn transition(&mut self, push: &mut Push<T>)
        requires
            old(self).sound(),
            old(self).admits(old(push)),
            old(self).pushed() + STARTING_SIZE <= usize::MAX,
        ensures
            final(self).sound(),
            final(self).admits(final(push)),
            old(self).grows_to(final(self)),
            final(self).tail == old(self).tail,
            final(self).popped() == old(self).popped(),
            final(push).value() is Some ==> final(push).value() == old(push).value(),
            old(push).value() is Some ==> final(self).steps_left(final(push)) + 1 == old(
                self,
            ).steps_left(old(push)),
            match old(push).stage {
                Stage::Start(_) => {
                    &&& final(push).stage is Claim
                    &&& final(push).stage->Claim_0 == old(self).head
                    &&& final(self).segments@ == old(self).segments@
                    &&& final(self).head == old(self).head
                    &&& final(self).slices() == old(self).slices()
                    &&& final(self).pushed() == old(self).pushed()
                },
                Stage::Claim(head, value) => {
                    &&& final(self).segments@.len() == old(self).segments@.len()
                    &&& final(self).head == old(self).head
                    &&& forall|i: int|
                        #![trigger final(self).segments@[i]]
                        0 <= i < old(self).segments@.len() ==> final(self).segments@[i].is_closed()
                            == old(self).segments@[i].is_closed() || (i == head && i == old(
                            self,
                        ).head)
                    &&& if old(self).segments@[head as int].is_closed() {
                        &&& final(push).stage is Full
                        &&& final(push).stage->Full_0 == head
                        &&& final(self).slices() == old(self).slices()
                        &&& final(self).pushed() == old(self).pushed()
                    } else {
                        &&& final(push).stage is Done
                        &&& head == old(self).head
                        &&& head + 1 == old(self).segments@.len()
                        &&& final(self).segments@[head as int].front > 0
                        &&& final(self).slices() == old(self).slices().update(
                            old(self).slices().len() - 1,
                            old(self).slices().last().push(value),
                        )
                        &&& final(self).pushed() == old(self).pushed() + 1
                    }
                },
                Stage::Full(head, _) => {
                    &&& final(self).segments@ == old(self).segments@
                    &&& final(self).head == old(self).head
                    &&& final(self).slices() == old(self).slices()
                    &&& final(self).pushed() == old(self).pushed()
                    &&& if head + 1 < old(self).segments@.len() {
                        &&& final(push).stage is Advance
                        &&& final(push).stage->Advance_0 == head
                        &&& final(push).stage->Advance_1 == head + 1
                    } else {
                        &&& final(push).stage is Link
                        &&& final(push).stage->Link_0 == head
                    }
                },
                Stage::Advance(head, next, _) => {
                    &&& final(push).stage is Start
                    &&& final(self).segments@ == old(self).segments@
                    &&& final(self).head == (if old(self).head == head {
                        next
                    } else {
                        old(self).head
                    })
                    &&& old(self).head == head ==> !final(self).segments@[next as int].is_closed()
                    &&& final(self).slices() == old(self).slices()
                    &&& final(self).pushed() == old(self).pushed()
                },
                Stage::Link(head, _, _) => {
                    &&& final(push).stage is Start
                    &&& final(self).head == old(self).head
                    &&& forall|i: int|
                        #![trigger final(self).segments@[i]]
                        0 <= i < old(self).segments@.len() ==> final(self).segments@[i].is_closed()
                            == old(self).segments@[i].is_closed()
                    &&& final(self).pushed() == old(self).pushed()
                    &&& if head + 1 < old(self).segments@.len() {
                        &&& final(self).segments@.len() == old(self).segments@.len()
                        &&& final(self).slices() == old(self).slices()
                    } else {
                        &&& final(self).segments@.len() == old(self).segments@.len() + 1
                        &&& final(self).slices() == old(self).slices().push(Seq::<T>::empty())
                    }
                },
                Stage::Done => {
                    &&& final(push).stage is Done
                    &&& final(self).segments@ == old(self).segments@
                    &&& final(self).head == old(self).head
                    &&& final(self).slices() == old(self).slices()
                    &&& final(self).pushed() == old(self).pushed()
                },
            },
    {
        proof {
            assert forall|i: int| 0 <= i < self.segments@.len() implies #[trigger] self.kept(
                self,
                i,
            ) by {}
        }
        let mut stage = Stage::Done;
        std::mem::swap(&mut push.stage, &mut stage);
        match stage {
            Stage::Start(value) => {
                push.stage = Stage::Claim(self.head, value);
            },
            Stage::Claim(head, value) => {
                let ghost before = *self;
                proof {
                    assert(self.seg_inv(head as int));
                }
                match self.segments[head].offer(value) {
                    None => {
                        push.stage = Stage::Done;
                        proof {
                            assert forall|i: int| 0 <= i < self.segments@.len() implies #[trigger] self.seg_inv(
                                i,
                            ) by {
                                assert(before.seg_inv(i));
                            }
                            assert(before.head == head);
                            assert(before.head + 1 == before.segments@.len());
                            assert(self.slices() =~= before.slices().update(
                                before.slices().len() - 1,
                                before.slices().last().push(value),
                            ));
                            lemma_flatten_push_last(before.slices(), value);
                            assert forall|i: int| 0 <= i < before.segments@.len() implies #[trigger] before.kept(
                                self,
                                i,
                            ) by {}
                        }
                    },
                    Some(refused) => {
                        push.stage = Stage::Full(head, refused);
                        proof {
                            assert forall|i: int| 0 <= i < self.segments@.len() implies #[trigger] self.seg_inv(
                                i,
                            ) by {
                                assert(before.seg_inv(i));
                            }
                            assert(self.slices() =~= before.slices());
                            assert forall|i: int| 0 <= i < before.segments@.len() implies #[trigger] before.kept(
                                self,
                                i,
                            ) by {}
                        }
                    },
                }
            },
            Stage::Full(head, value) => {
                proof {
                    assert(self.seg_inv(head as int));
                    assert(self.seg_inv(self.head as int));
                }
                match self.segments[head].next {
                    Some(next) => {
                        push.stage = Stage::Advance(head, next, value);
                    },
                    None => {
                        let fresh = new_segment(self.segments[head].capacity * 2);
                        push.stage = Stage::Link(head, fresh, value);
                    },
                }
            },
            Stage::Advance(head, next, value) => {
                proof {
                    assert(self.seg_inv(head as int));
                }
                self.advance_head(head, next);
                push.stage = Stage::Start(value);
            },
            Stage::Link(head, fresh, value) => {
                proof {
                    assert(self.seg_inv(head as int));
                }
                let ghost before = *self;
                self.link(head, fresh);
                push.stage = Stage::Start(value);
                proof {
                    assert forall|i: int| 0 <= i < before.segments@.len() implies (
                    #[trigger] self.segments@[i]).is_closed() == before.segments@[i].is_closed() by {
                        assert(before.seg_inv(i));
                        assert(self.seg_inv(i));
                        assert(before.kept(self, i));
                    }
                }
            },
            Stage::Done => {
                push.stage = Stage::Done;
            },
        }
    }

    /// Takes the next step of `push`: reads the head, claims a slot and stores
    /// the value in it, reads the link of a segment that had no slot left,
    /// moves the head on, or links a new segment. A push that is done has no
    /// step left, and nothing happens.
    ///
    /// The step at which the push gets done appends its value to the buffer.
    /// No other step changes what the buffer holds. Every step brings the
    /// push one step closer to its end.
    pub fn step(&mut self, push: &mut Push<T>)
        requires
            old(self).sound(),
            old(self).admits(old(push)),
            old(self).pushed() + STARTING_SIZE <= usize::MAX,
        ensures
            final(self).sound(),
            final(self).admits(final(push)),
            old(self).grows_to(final(self)),
            final(self).popped() == old(self).popped(),
            old(push).value() is Some ==> final(self).steps_left(final(push)) + 1 == old(
                self,
            ).steps_left(old(push)),
            if old(push).value() is Some && final(push).done() {
                &&& final(self)@ == old(self)@.push(old(push).value()->0)
                &&& final(self).pushed() == old(self).pushed() + 1
            } else {
                &&& final(self)@ == old(self)@
                &&& final(self).pushed() == old(self).pushed()
                &&& final(push).value() == old(push).value()
            },
    {
        proof {
            if old(push).stage is Claim {
                assert(self.seg_inv(self.head as int));
                lemma_flatten_push_last(
                    self.slices(),
                    old(push).value()->0,
                );
            }
            if old(push).stage is Link {
                self.slices().lemma_flatten_push(Seq::<T>::empty());
            }
        }
        self.transition(push);
    }

    /// Pushes a value onto the buffer.
    ///
    /// The push takes all its steps at once. The value goes to the head
    /// segment. When that segment has no slot left, a segment of twice its
    /// capacity is linked behind it, the head moves on to it, and the value
    /// goes there. That takes ten steps at most.
    ///
    /// The capacity of a new segment must fit in a `usize`, which it does as
    /// long as `STARTING_SIZE` more than the number of values pushed so far
    /// does.
    pub fn push(&mut self, value: T)
        requires
            old(self).wf(),
            old(self).pushed() + STARTING_SIZE <= usize::MAX,
        ensures
            final(self).wf(),
            old(self).grows_to(final(self)),
            final(self).slices() == slices_after_push(old(self).slices(), old(self).pushed(), value),
            final(self)@ == old(self)@.push(value),
            final(self).pushed() == old(self).pushed() + 1,
            final(self).popped() == old(self).popped(),
    {
        proof {
            self.lemma_head_closed_at_boundary();
            self.lemma_grows_to_self();
        }
        let mut push = Push { stage: Stage::Start(value) };
        loop
            invariant
                self.sound(),
                old(self).wf(),
                self.admits(&push),
                old(self).grows_to(self),
                push.value() == Some(value),
                self.pushed() == old(self).pushed(),
                self.popped() == old(self).popped(),
                self.pushed() + STARTING_SIZE <= usize::MAX,
                at_boundary(old(self).pushed()) == old(self).segments@[old(
                    self,
                ).head as int].is_closed(),
                push.stage is Claim ==> push.stage->Claim_0 == self.head,
                push.stage is Full ==> push.stage->Full_0 == self.head,
                push.stage is Advance ==> push.stage->Advance_0 == self.head
                    && self.segments@.len() != old(self).segments@.len(),
                push.stage is Link ==> push.stage->Link_0 == self.head && self.segments@.len()
                    == old(self).segments@.len(),
                self.segments@.len() == old(self).segments@.len() ==> self.head == old(self).head
                    && self.slices() == old(self).slices() && self.segments@[self.head as int].is_closed()
                    == old(self).segments@[self.head as int].is_closed(),
                self.segments@.len() != old(self).segments@.len() ==> at_boundary(
                    old(self).pushed(),
                ) && self.slices() == old(self).slices().push(Seq::<T>::empty())
                    && self.segments@.len() == old(self).segments@.len() + 1 && (if self.head
                    == old(self).head {
                    self.segments@[self.head as int].is_closed()
                } else {
                    self.head == old(self).head + 1 && !self.segments@[self.head as int].is_closed()
                        && (push.stage is Start || push.stage is Claim)
                }),
            decreases self.steps_left(&push),
        {
            let ghost before = *self;
            self.transition(&mut push);
            proof {
                old(self).lemma_grows_on(&before, self);
            }
            if push.is_done() {
                proof {
                    assert(self.slices() =~= slices_after_push(
                        old(self).slices(),
                        old(self).pushed(),
                        value,
                    ));
                    old(self).lemma_slices_shape();
                    lemma_push_appends(old(self).slices(), old(self).pushed(), value);
                }
                return ;
            }
        }
    }
}

} // verus!
