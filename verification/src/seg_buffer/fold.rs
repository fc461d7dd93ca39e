//! What it means to fold a sequence of items with a function.
use vstd::prelude::*;

verus! {

/// `result` is an outcome of folding `items` into `init` with `f`: of calling
/// `f` on the accumulator and each item in turn, the first call on `init`,
/// and each later call on what the call before it returned.
pub open spec fn folded<A, S, F: Fn(A, S) -> A>(f: F, init: A, items: Seq<S>, result: A) -> bool
    decreases items.len(),
{
    if items.len() == 0 {
        result == init
    } else {
        exists|mid: A| #[trigger]
            call_ensures(f, (init, items[0]), mid) && folded(f, mid, items.drop_first(), result)
    }
}

/// References to the given values, one for each, in their order.
pub open spec fn refs_to<'a, T>(values: Seq<T>) -> Seq<&'a T> {
    values.map_values(|v: T| &v)
}

/// A fold of `items` that is followed by one more call, on `item`, is a fold
/// of `items` with `item` at the end.
pub proof fn lemma_folded_push<A, S, F: Fn(A, S) -> A>(
    f: F,
    init: A,
    items: Seq<S>,
    acc: A,
    item: S,
    next: A,
)
    requires
        folded(f, init, items, acc),
        call_ensures(f, (acc, item), next),
    ensures
        folded(f, init, items.push(item), next),
    decreases items.len(),
{
    let all = items.push(item);
    if items.len() == 0 {
        assert(all[0] == item);
        assert(all.drop_first() =~= Seq::<S>::empty());
        assert(folded(f, next, all.drop_first(), next));
        assert(call_ensures(f, (init, all[0]), next));
    } else {
        let mid = choose|mid: A| #[trigger]
            call_ensures(f, (init, items[0]), mid) && folded(f, mid, items.drop_first(), acc);
        lemma_folded_push(f, mid, items.drop_first(), acc, item, next);
        assert(all.drop_first() =~= items.drop_first().push(item));
        assert(all[0] == items[0]);
        assert(call_ensures(f, (init, all[0]), mid));
    }
}

} // verus!
