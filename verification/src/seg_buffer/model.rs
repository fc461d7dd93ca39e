//! The buffer as mathematics: what a push and a pop do to the slices of a
//! buffer, and where the chain of segments grows.
use super::flat::{
    lemma_flatten_push_last, lemma_flatten_skip_empty, lemma_flatten_take_first,
};
use vstd::prelude::*;

verus! {

/// Capacity of the first segment in a buffer.
pub const STARTING_SIZE: usize = 64;

/// Whether `capacity` is the capacity of a segment: the starting size, or
/// twice the capacity of a segment.
pub open spec fn is_capacity(capacity: nat) -> bool
    decreases capacity,
{
    capacity == STARTING_SIZE || (capacity > STARTING_SIZE && capacity % 2 == 0 && is_capacity(
        capacity / 2,
    ))
}

/// Whether the segments are exactly full once `pushed` values have gone into
/// a buffer. A chain of segments of 64, 128, 256, ... slots is full at 64,
/// 192, 448, ... values: the push after that goes to a new segment.
pub open spec fn at_boundary(pushed: nat) -> bool
    decreases pushed,
{
    pushed == STARTING_SIZE || (pushed > STARTING_SIZE && (pushed - STARTING_SIZE) % 2 == 0
        && at_boundary(((pushed - STARTING_SIZE) / 2) as nat))
}

/// The shape that the slices of a buffer have: there is a slice to read
/// from, and every slice after it holds a value.
pub open spec fn well_shaped<T>(slices: Seq<Seq<T>>) -> bool {
    &&& slices.len() > 0
    &&& forall|i: int| 0 < i < slices.len() ==> #[trigger] slices[i].len() > 0
}

/// The slices of a buffer after `value` is pushed, where `pushed` values
/// went into the buffer before: the value is appended to the last slice, or,
/// at a boundary, becomes a slice of its own.
pub open spec fn slices_after_push<T>(slices: Seq<Seq<T>>, pushed: nat, value: T) -> Seq<Seq<T>> {
    if at_boundary(pushed) {
        slices.push(seq![value])
    } else {
        slices.update(slices.len() - 1, slices.last().push(value))
    }
}

/// The slices that a pop reads from: the slices without a first slice that
/// is used up and has a successor.
pub open spec fn slices_to_pop<T>(slices: Seq<Seq<T>>) -> Seq<Seq<T>> {
    if slices.len() > 1 && slices[0].len() == 0 {
        slices.drop_first()
    } else {
        slices
    }
}

/// What a pop returns from a buffer of the given slices: the first value of
/// the first slice to read from, if it has one.
pub open spec fn popped_value<T>(slices: Seq<Seq<T>>) -> Option<T> {
    let live = slices_to_pop(slices);
    if live[0].len() == 0 {
        None
    } else {
        Some(live[0][0])
    }
}

/// The slices of a buffer after a pop: without the value that the pop
/// returned, and unchanged if it returned none.
pub open spec fn slices_after_pop<T>(slices: Seq<Seq<T>>) -> Seq<Seq<T>> {
    let live = slices_to_pop(slices);
    if live[0].len() == 0 {
        slices
    } else {
        live.update(0, live[0].drop_first())
    }
}

/// The slices of a buffer after `values` are pushed one after the other,
/// where `pushed` values went into the buffer before.
pub open spec fn slices_after_pushes<T>(slices: Seq<Seq<T>>, pushed: nat, values: Seq<T>) -> Seq<
    Seq<T>,
>
    decreases values.len(),
{
    if values.len() == 0 {
        slices
    } else {
        slices_after_pushes(
            slices_after_push(slices, pushed, values[0]),
            pushed + 1,
            values.drop_first(),
        )
    }
}

/// What `count` pops in a row return from a buffer of the given slices, the
/// first pop first.
pub open spec fn popped_values<T>(slices: Seq<Seq<T>>, count: nat) -> Seq<Option<T>>
    decreases count,
{
    if count == 0 {
        Seq::empty()
    } else {
        seq![popped_value(slices)] + popped_values(slices_after_pop(slices), (count - 1) as nat)
    }
}

/// The slices of a buffer after `count` pops in a row.
pub open spec fn slices_after_pops<T>(slices: Seq<Seq<T>>, count: nat) -> Seq<Seq<T>>
    decreases count,
{
    if count == 0 {
        slices
    } else {
        slices_after_pops(slices_after_pop(slices), (count - 1) as nat)
    }
}

/// The segment of capacity `capacity` is the last one exactly when the
/// number of values pushed lies above `capacity - STARTING_SIZE`, where the
/// segments before it are full, and at most `capacity` higher. Of those
/// numbers only the highest is a boundary.
pub proof fn lemma_boundary_of_capacity(capacity: nat)
    requires
        is_capacity(capacity),
    ensures
        capacity >= STARTING_SIZE,
        at_boundary((2 * capacity - STARTING_SIZE) as nat),
        forall|pushed: nat|
            capacity - STARTING_SIZE < pushed < 2 * capacity - STARTING_SIZE ==> !at_boundary(
                pushed,
            ),
    decreases capacity,
{
    if capacity > STARTING_SIZE {
        let half = capacity / 2;
        lemma_boundary_of_capacity(half);
        assert forall|pushed: nat|
            capacity - STARTING_SIZE < pushed < 2 * capacity - STARTING_SIZE implies !at_boundary(
            pushed,
        ) by {
            if at_boundary(pushed) {
                let below = ((pushed - STARTING_SIZE) / 2) as nat;
                assert(capacity == 2 * half);
                assert(pushed > STARTING_SIZE);
                assert(pushed - STARTING_SIZE == 2 * below);
                assert(at_boundary(below));
                assert(half - STARTING_SIZE < below < 2 * half - STARTING_SIZE);
                assert(!at_boundary(below));
            }
        }
        assert(((2 * capacity - STARTING_SIZE - STARTING_SIZE) / 2) as nat == (2 * half
            - STARTING_SIZE) as nat);
    }
}

/// No push is lost: the values after a push are the values before it with
/// the pushed value at the end, wherever the chain stands.
pub proof fn lemma_push_appends<T>(slices: Seq<Seq<T>>, pushed: nat, value: T)
    requires
        well_shaped(slices),
    ensures
        well_shaped(slices_after_push(slices, pushed, value)),
        slices_after_push(slices, pushed, value).flatten() == slices.flatten().push(value),
{
    if at_boundary(pushed) {
        slices.lemma_flatten_push(seq![value]);
        assert(slices.flatten() + seq![value] =~= slices.flatten().push(value));
    } else {
        lemma_flatten_push_last(slices, value);
    }
}

/// A pop takes the oldest value: it returns the first of the values if
/// there is one, and the values after it are the others. From a buffer that
/// holds no value it returns `None` and leaves the slices as they are.
pub proof fn lemma_pop_takes_first<T>(slices: Seq<Seq<T>>)
    requires
        well_shaped(slices),
    ensures
        well_shaped(slices_after_pop(slices)),
        slices.flatten().len() == 0 ==> slices_after_pop(slices) == slices,
        popped_value(slices) == (if slices.flatten().len() == 0 {
            None
        } else {
            Some(slices.flatten()[0])
        }),
        slices_after_pop(slices).flatten() == (if slices.flatten().len() == 0 {
            slices.flatten()
        } else {
            slices.flatten().drop_first()
        }),
{
    let live = slices_to_pop(slices);
    if slices.len() > 1 && slices[0].len() == 0 {
        lemma_flatten_skip_empty(slices);
        assert(slices[1].len() > 0);
    }
    if live[0].len() > 0 {
        lemma_flatten_take_first(live);
        let after = slices_after_pop(slices);
        assert forall|i: int| 0 < i < after.len() implies #[trigger] after[i].len() > 0 by {
            assert(after[i] == live[i]);
            if live.len() < slices.len() {
                assert(live[i] == slices[i + 1]);
            }
        }
    } else {
        assert(slices.len() == 1);
        slices.lemma_flatten_one_element();
    }
}

} // verus!
