//! What holds of every buffer, whatever is pushed and popped.
use super::model::{
    at_boundary, is_capacity, lemma_boundary_of_capacity, lemma_pop_takes_first,
    lemma_push_appends, popped_value, popped_values, slices_after_pop, slices_after_pops,
    slices_after_push, slices_after_pushes, well_shaped, STARTING_SIZE,
};
use vstd::multiset::Multiset;
use vstd::prelude::*;

verus! {

/// The given values, each as what a pop returns for it.
pub open spec fn each_some<T>(values: Seq<T>) -> Seq<Option<T>> {
    Seq::new(values.len(), |i: int| Some(values[i]))
}

/// What `count` pops return that find nothing.
pub open spec fn nones<T>(count: nat) -> Seq<Option<T>> {
    Seq::new(count, |i: int| None)
}

/// The capacity of the segment with the given number in the chain: the
/// starting size for the first segment, and for every other segment twice the
/// capacity of the one before it.
pub open spec fn capacity_at(number: nat) -> nat
    decreases number,
{
    if number == 0 {
        STARTING_SIZE as nat
    } else {
        2 * capacity_at((number - 1) as nat)
    }
}

/// The slices are filled like a staircase: every slice but the last holds as
/// many values as its segment has slots, the last slice holds no more than
/// that, and a slice that follows another holds a value.
pub open spec fn staircase<T>(slices: Seq<Seq<T>>) -> bool {
    &&& slices.len() > 0
    &&& forall|i: int|
        0 <= i < slices.len() - 1 ==> (#[trigger] slices[i]).len() == capacity_at(i as nat)
    &&& slices.last().len() <= capacity_at((slices.len() - 1) as nat)
    &&& slices.len() > 1 ==> slices.last().len() > 0
}

/// `order` is an interleaving of `parts`: it holds the values of all parts,
/// and the values of each part come in the order that they have in the part.
pub open spec fn interleaves<T>(parts: Seq<Seq<T>>, order: Seq<T>) -> bool
    decreases order.len(),
{
    if order.len() == 0 {
        forall|i: int| 0 <= i < parts.len() ==> (#[trigger] parts[i]).len() == 0
    } else {
        exists|i: int|
            0 <= i < parts.len() && (#[trigger] parts[i]).len() > 0 && parts[i].last()
                == order.last() && interleaves(
                parts.update(i, parts[i].drop_last()),
                order.drop_last(),
            )
    }
}

/// The values of all parts together, each as often as the parts hold it.
pub open spec fn gathered<T>(parts: Seq<Seq<T>>) -> Multiset<T>
    decreases parts.len(),
{
    if parts.len() == 0 {
        Multiset::empty()
    } else {
        gathered(parts.drop_last()).add(parts.last().to_multiset())
    }
}

/// Pushes append: after `values` are pushed in turn, the buffer holds what
/// it held, followed by `values`.
pub proof fn lemma_pushes_append<T>(slices: Seq<Seq<T>>, pushed: nat, values: Seq<T>)
    requires
        well_shaped(slices),
    ensures
        well_shaped(slices_after_pushes(slices, pushed, values)),
        slices_after_pushes(slices, pushed, values).flatten() == slices.flatten() + values,
    decreases values.len(),
{
    if values.len() == 0 {
        assert(slices.flatten() + values =~= slices.flatten());
    } else {
        lemma_push_appends(slices, pushed, values[0]);
        lemma_pushes_append(
            slices_after_push(slices, pushed, values[0]),
            pushed + 1,
            values.drop_first(),
        );
        assert(slices.flatten().push(values[0]) + values.drop_first() =~= slices.flatten()
            + values);
    }
}

/// Pops take from the front: as long as the buffer holds values, pops in a
/// row return the values of the buffer from the oldest on, and leave the
/// others in the buffer.
pub proof fn lemma_pops_take_front<T>(slices: Seq<Seq<T>>, count: nat)
    requires
        well_shaped(slices),
        count <= slices.flatten().len(),
    ensures
        well_shaped(slices_after_pops(slices, count)),
        popped_values(slices, count) == each_some(slices.flatten().take(count as int)),
        slices_after_pops(slices, count).flatten() == slices.flatten().skip(count as int),
    decreases count,
{
    let held = slices.flatten();
    if count == 0 {
        assert(popped_values(slices, count) =~= each_some(held.take(0)));
        assert(held.skip(0) =~= held);
    } else {
        lemma_pop_takes_first(slices);
        let rest = slices_after_pop(slices);
        lemma_pops_take_front(rest, (count - 1) as nat);
        assert(seq![Some(held[0])] + each_some(held.drop_first().take(count - 1)) =~= each_some(
            held.take(count as int),
        ));
        assert(held.drop_first().skip(count - 1) =~= held.skip(count as int));
    }
}

/// Emptiness is idempotent: every pop from a buffer that holds no value, a
/// new buffer or one that was drained, returns `None` and leaves the buffer
/// as it is, however often it is repeated.
pub proof fn lemma_empty_stays_empty<T>(slices: Seq<Seq<T>>, count: nat)
    requires
        well_shaped(slices),
        slices.flatten().len() == 0,
    ensures
        popped_values(slices, count) == nones::<T>(count),
        slices_after_pops(slices, count) == slices,
    decreases count,
{
    if count == 0 {
        assert(popped_values(slices, count) =~= nones::<T>(count));
    } else {
        lemma_pop_takes_first(slices);
        lemma_empty_stays_empty(slices, (count - 1) as nat);
        assert(seq![None::<T>] + nones::<T>((count - 1) as nat) =~= nones::<T>(count));
    }
}

/// Pops that follow one another are the same as one run of pops.
pub proof fn lemma_pops_in_two_runs<T>(slices: Seq<Seq<T>>, first: nat, second: nat)
    ensures
        popped_values(slices, first + second) == popped_values(slices, first) + popped_values(
            slices_after_pops(slices, first),
            second,
        ),
        slices_after_pops(slices, first + second) == slices_after_pops(
            slices_after_pops(slices, first),
            second,
        ),
    decreases first,
{
    if first == 0 {
        assert(popped_values(slices, first) + popped_values(slices, second) =~= popped_values(
            slices,
            second,
        ));
    } else {
        let rest = slices_after_pop(slices);
        lemma_pops_in_two_runs(rest, (first - 1) as nat, second);
        assert((first + second - 1) as nat == (first - 1) as nat + second);
        assert(seq![popped_value(slices)] + (popped_values(rest, (first - 1) as nat)
            + popped_values(slices_after_pops(rest, (first - 1) as nat), second)) =~= (seq![
            popped_value(slices),
        ] + popped_values(rest, (first - 1) as nat)) + popped_values(
            slices_after_pops(rest, (first - 1) as nat),
            second,
        ));
    }
}

/// First in, first out: when `values` are pushed in turn into a buffer that
/// holds no value, the pops that follow return the values in the order in
/// which they were pushed, and every pop after that returns `None`.
pub proof fn lemma_fifo<T>(slices: Seq<Seq<T>>, pushed: nat, values: Seq<T>, more: nat)
    requires
        well_shaped(slices),
        slices.flatten().len() == 0,
    ensures
        popped_values(slices_after_pushes(slices, pushed, values), values.len() + more)
            == each_some(values) + nones::<T>(more),
        slices_after_pops(
            slices_after_pushes(slices, pushed, values),
            values.len() + more,
        ).flatten() == Seq::<T>::empty(),
{
    let filled = slices_after_pushes(slices, pushed, values);
    lemma_pushes_append(slices, pushed, values);
    assert(slices.flatten() + values =~= values);
    lemma_pops_take_front(filled, values.len());
    assert(values.take(values.len() as int) =~= values);
    assert(values.skip(values.len() as int) =~= Seq::<T>::empty());
    lemma_empty_stays_empty(slices_after_pops(filled, values.len()), more);
    lemma_pops_in_two_runs(filled, values.len(), more);
}

/// Building a buffer from a sequence and draining it gives the sequence
/// back: when `values` are pushed in turn into a new buffer, as many pops
/// return `values`, in their order, and leave no value behind.
pub proof fn lemma_round_trip<T>(values: Seq<T>)
    ensures
        popped_values(
            slices_after_pushes(seq![Seq::<T>::empty()], 0, values),
            values.len(),
        ) == each_some(values),
        slices_after_pops(
            slices_after_pushes(seq![Seq::<T>::empty()], 0, values),
            values.len(),
        ).flatten() == Seq::<T>::empty(),
{
    let new = seq![Seq::<T>::empty()];
    new.lemma_flatten_one_element();
    lemma_fifo(new, 0, values, 0);
    assert(each_some(values) + nones::<T>(0) =~= each_some(values));
}

/// The capacities of the segments are capacities: the starting size doubled
/// over and over.
pub proof fn lemma_capacity_at(number: nat)
    ensures
        is_capacity(capacity_at(number)),
        capacity_at(number) >= STARTING_SIZE,
    decreases number,
{
    if number > 0 {
        lemma_capacity_at((number - 1) as nat);
    }
}

/// The segments before the one with the given number hold
/// `capacity_at(number) - STARTING_SIZE` values between them, when all of
/// them are full.
pub open spec fn filled_before(number: nat) -> nat {
    (capacity_at(number) - STARTING_SIZE) as nat
}

/// Growth keeps the staircase: a push into slices that are filled like a
/// staircase, by as many values as have been pushed, leaves them filled like
/// a staircase. The chain grows by one segment exactly when the last segment
/// is full, and never while it has a slot left.
pub proof fn lemma_push_keeps_staircase<T>(slices: Seq<Seq<T>>, pushed: nat, value: T)
    requires
        staircase(slices),
        pushed == filled_before((slices.len() - 1) as nat) + slices.last().len(),
    ensures
        staircase(slices_after_push(slices, pushed, value)),
        at_boundary(pushed) == (slices.last().len() == capacity_at((slices.len() - 1) as nat)),
        pushed + 1 == filled_before((slices_after_push(slices, pushed, value).len() - 1) as nat)
            + slices_after_push(slices, pushed, value).last().len(),
{
    let last = (slices.len() - 1) as nat;
    let capacity = capacity_at(last);
    lemma_capacity_at(last);
    lemma_boundary_of_capacity(capacity);
    if last == 0 && slices.last().len() == 0 {
        assert(!at_boundary(0nat));
    }
    let after = slices_after_push(slices, pushed, value);
    if at_boundary(pushed) {
        assert(slices.last().len() == capacity);
        assert(after.len() == slices.len() + 1);
        assert(capacity_at(last + 1) == 2 * capacity);
        assert forall|i: int| 0 <= i < after.len() - 1 implies (#[trigger] after[i]).len()
            == capacity_at(i as nat) by {
            assert(after[i] == slices[i]);
        }
    } else {
        assert(slices.last().len() < capacity);
        assert forall|i: int| 0 <= i < after.len() - 1 implies (#[trigger] after[i]).len()
            == capacity_at(i as nat) by {
            assert(after[i] == slices[i]);
        }
    }
}

/// Growth is correct: when `values` are pushed in turn into a new buffer,
/// the slices are filled like a staircase of 64, 128, 256, ... values, and
/// together they hold exactly `values`, in their order.
pub proof fn lemma_growth<T>(values: Seq<T>)
    ensures
        staircase(slices_after_pushes(seq![Seq::<T>::empty()], 0, values)),
        slices_after_pushes(seq![Seq::<T>::empty()], 0, values).flatten() == values,
{
    let new = seq![Seq::<T>::empty()];
    lemma_pushes_append(new, 0, values);
    new.lemma_flatten_one_element();
    assert(new.flatten() + values =~= values);
    lemma_pushes_keep_staircase(new, 0, values);
}

/// Pushes in a row keep the staircase, as each of them does.
pub proof fn lemma_pushes_keep_staircase<T>(slices: Seq<Seq<T>>, pushed: nat, values: Seq<T>)
    requires
        staircase(slices),
        pushed == filled_before((slices.len() - 1) as nat) + slices.last().len(),
    ensures
        staircase(slices_after_pushes(slices, pushed, values)),
    decreases values.len(),
{
    if values.len() > 0 {
        lemma_push_keeps_staircase(slices, pushed, values[0]);
        lemma_pushes_keep_staircase(
            slices_after_push(slices, pushed, values[0]),
            pushed + 1,
            values.drop_first(),
        );
    }
}

/// Replacing a part changes what the parts hold together by what the part
/// loses and gains.
pub proof fn lemma_gathered_update<T>(parts: Seq<Seq<T>>, at: int, part: Seq<T>)
    requires
        0 <= at < parts.len(),
    ensures
        gathered(parts.update(at, part)).add(parts[at].to_multiset()) == gathered(parts).add(
            part.to_multiset(),
        ),
    decreases parts.len(),
{
    let changed = parts.update(at, part);
    if at == parts.len() - 1 {
        assert(changed.drop_last() =~= parts.drop_last());
        assert(gathered(changed).add(parts[at].to_multiset()) =~= gathered(parts).add(
            part.to_multiset(),
        ));
    } else {
        let before = parts.drop_last();
        lemma_gathered_update(before, at, part);
        assert(changed.drop_last() =~= before.update(at, part));
        assert(changed.last() == parts.last());
        assert(before[at] == parts[at]);
        let left = gathered(before.update(at, part)).add(parts[at].to_multiset());
        let right = gathered(before).add(part.to_multiset());
        assert forall|x: T|
            gathered(changed).add(parts[at].to_multiset()).count(x) == gathered(parts).add(
                part.to_multiset(),
            ).count(x) by {
            assert(left.count(x) == right.count(x));
        }
        assert(gathered(changed).add(parts[at].to_multiset()) =~= gathered(parts).add(
            part.to_multiset(),
        ));
    }
}

/// Parts that hold nothing hold nothing together.
pub proof fn lemma_gathered_empty<T>(parts: Seq<Seq<T>>)
    requires
        forall|i: int| 0 <= i < parts.len() ==> (#[trigger] parts[i]).len() == 0,
    ensures
        gathered(parts) == Multiset::<T>::empty(),
    decreases parts.len(),
{
    broadcast use vstd::seq_lib::group_to_multiset_ensures;

    if parts.len() > 0 {
        lemma_gathered_empty(parts.drop_last());
        assert(parts.last().len() == 0);
        assert(parts.last() =~= Seq::<T>::empty());
        assert(gathered(parts) =~= Multiset::<T>::empty());
    }
}

/// An interleaving loses and repeats nothing: it holds every value as often
/// as the parts hold it together.
pub proof fn lemma_interleaving_gathers<T>(parts: Seq<Seq<T>>, order: Seq<T>)
    requires
        interleaves(parts, order),
    ensures
        order.to_multiset() == gathered(parts),
    decreases order.len(),
{
    broadcast use vstd::seq_lib::group_to_multiset_ensures;

    if order.len() == 0 {
        lemma_gathered_empty(parts);
        assert(order =~= Seq::<T>::empty());
    } else {
        let i = choose|i: int|
            0 <= i < parts.len() && (#[trigger] parts[i]).len() > 0 && parts[i].last()
                == order.last() && interleaves(
                parts.update(i, parts[i].drop_last()),
                order.drop_last(),
            );
        let less = parts.update(i, parts[i].drop_last());
        lemma_interleaving_gathers(less, order.drop_last());
        lemma_gathered_update(parts, i, parts[i].drop_last());
        assert(order =~= order.drop_last().push(order.last()));
        assert(parts[i] =~= parts[i].drop_last().push(order.last()));
        assert(order.to_multiset() =~= order.drop_last().to_multiset().insert(order.last()));
        assert(parts[i].to_multiset() =~= parts[i].drop_last().to_multiset().insert(
            order.last(),
        ));
        let less_part = parts[i].drop_last().to_multiset();
        let left = gathered(less).add(parts[i].to_multiset());
        let right = gathered(parts).add(less_part);
        assert forall|x: T| order.to_multiset().count(x) == gathered(parts).count(x) by {
            assert(left.count(x) == right.count(x));
            assert(order.drop_last().to_multiset().count(x) == gathered(less).count(x));
        }
        assert(order.to_multiset() =~= gathered(parts));
    }
}

/// Parts that are all the same sequence hold each value of that sequence, as
/// often as it occurs there, once for each part.
pub proof fn lemma_gathered_copies<T>(parts: Seq<Seq<T>>, each: Seq<T>, value: T)
    requires
        forall|i: int| 0 <= i < parts.len() ==> #[trigger] parts[i] == each,
    ensures
        gathered(parts).count(value) == parts.len() * each.to_multiset().count(value),
    decreases parts.len(),
{
    if parts.len() > 0 {
        lemma_gathered_copies(parts.drop_last(), each, value);
        assert(parts.last() == each);
        assert(parts.len() * each.to_multiset().count(value) == (parts.len() - 1)
            * each.to_multiset().count(value) + each.to_multiset().count(value))
            by (nonlinear_arith);
    }
}

/// Parts that are all the same sequence hold together as many values as
/// that sequence has, once for each part.
pub proof fn lemma_gathered_size<T>(parts: Seq<Seq<T>>, each: Seq<T>)
    requires
        forall|i: int| 0 <= i < parts.len() ==> #[trigger] parts[i] == each,
    ensures
        gathered(parts).len() == parts.len() * each.len(),
    decreases parts.len(),
{
    broadcast use vstd::seq_lib::group_to_multiset_ensures;

    if parts.len() > 0 {
        lemma_gathered_size(parts.drop_last(), each);
        assert(parts.last() == each);
        assert(parts.len() * each.len() == (parts.len() - 1) * each.len() + each.len())
            by (nonlinear_arith);
    }
}

/// The numbers from 0 up to `end`, without `end`, from the smallest on.
pub open spec fn range(end: nat) -> Seq<int> {
    Seq::new(end, |i: int| i)
}

/// Every number below `end` occurs once in `range(end)`.
pub proof fn lemma_range_once(end: nat, value: int)
    requires
        0 <= value < end,
    ensures
        range(end).to_multiset().count(value) == 1,
    decreases end,
{
    broadcast use vstd::seq_lib::group_to_multiset_ensures;

    let below = range((end - 1) as nat);
    assert(range(end) =~= below.push(end - 1));
    if value < end - 1 {
        lemma_range_once((end - 1) as nat, value);
    } else {
        assert(!below.contains(value));
        assert(below.to_multiset().count(value) == 0);
    }
}

/// Many producers are treated fairly. When every producer pushes the values
/// of `each` in their order into a buffer that holds no value, then however
/// the pushes of the producers take turns, as many pops as there were pushes
/// return what was pushed, in the order `order` in which the pushes took
/// their turns: as many values as all producers pushed, and every value that
/// occurs once in `each` as often as there are producers.
pub proof fn lemma_producers_fair<T>(
    slices: Seq<Seq<T>>,
    pushed: nat,
    parts: Seq<Seq<T>>,
    each: Seq<T>,
    order: Seq<T>,
    value: T,
)
    requires
        well_shaped(slices),
        slices.flatten().len() == 0,
        forall|i: int| 0 <= i < parts.len() ==> #[trigger] parts[i] == each,
        interleaves(parts, order),
        each.to_multiset().count(value) == 1,
    ensures
        popped_values(slices_after_pushes(slices, pushed, order), order.len()) == each_some(
            order,
        ),
        order.len() == parts.len() * each.len(),
        order.to_multiset().count(value) == parts.len(),
{
    broadcast use vstd::seq_lib::group_to_multiset_ensures;

    lemma_fifo(slices, pushed, order, 0);
    assert(each_some(order) + nones::<T>(0) =~= each_some(order));
    lemma_interleaving_gathers(parts, order);
    lemma_gathered_copies(parts, each, value);
    lemma_gathered_size(parts, each);
}

/// Producers that each push the numbers from 0 up to `end` get every one of
/// those numbers out of the buffer as often as there are producers.
pub proof fn lemma_producers_fair_range(
    slices: Seq<Seq<int>>,
    pushed: nat,
    parts: Seq<Seq<int>>,
    end: nat,
    order: Seq<int>,
    value: int,
)
    requires
        well_shaped(slices),
        slices.flatten().len() == 0,
        forall|i: int| 0 <= i < parts.len() ==> #[trigger] parts[i] == range(end),
        interleaves(parts, order),
        0 <= value < end,
    ensures
        popped_values(slices_after_pushes(slices, pushed, order), order.len()) == each_some(
            order,
        ),
        order.len() == parts.len() * end,
        order.to_multiset().count(value) == parts.len(),
{
    lemma_range_once(end, value);
    lemma_producers_fair(slices, pushed, parts, range(end), order, value);
}

} // verus!
