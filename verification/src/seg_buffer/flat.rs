//! Facts about the concatenation of a sequence of slices.
use vstd::prelude::*;

verus! {

/// Removing the first element of a non-empty first slice removes the first
/// element of the concatenation.
pub proof fn lemma_flatten_take_first<T>(s: Seq<Seq<T>>)
    requires
        s.len() > 0,
        s[0].len() > 0,
    ensures
        s.flatten().len() > 0,
        s.flatten()[0] == s[0][0],
        s.update(0, s[0].drop_first()).flatten() == s.flatten().drop_first(),
{
    let t = s.update(0, s[0].drop_first());
    assert(t.drop_first() =~= s.drop_first());
    assert(t.flatten() =~= s.flatten().drop_first());
}

/// An empty first slice adds nothing to the concatenation.
pub proof fn lemma_flatten_skip_empty<T>(s: Seq<Seq<T>>)
    requires
        s.len() > 0,
        s[0].len() == 0,
    ensures
        s.drop_first().flatten() == s.flatten(),
{
    assert(s.flatten() =~= s.drop_first().flatten());
}

/// Appending a value to the last slice appends it to the concatenation.
pub proof fn lemma_flatten_push_last<T>(s: Seq<Seq<T>>, v: T)
    requires
        s.len() > 0,
    ensures
        s.update(s.len() - 1, s.last().push(v)).flatten() == s.flatten().push(v),
{
    let t = s.update(s.len() - 1, s.last().push(v));
    s.lemma_flatten_and_flatten_alt_are_equivalent();
    t.lemma_flatten_and_flatten_alt_are_equivalent();
    assert(t.drop_last() =~= s.drop_last());
    assert(t.flatten_alt() =~= s.flatten_alt().push(v));
}

/// A single empty slice concatenates to the empty sequence.
pub proof fn lemma_flatten_one_empty<T>(s: Seq<Seq<T>>)
    requires
        s.len() == 1,
        s[0].len() == 0,
    ensures
        s.flatten() == Seq::<T>::empty(),
{
    s.lemma_flatten_one_element();
    assert(s.flatten() =~= Seq::<T>::empty());
}

/// The two sequences have as many slices, and their slices agree in
/// length, one by one.
pub open spec fn same_lengths<T>(a: Seq<Seq<T>>, b: Seq<Seq<T>>) -> bool {
    &&& a.len() == b.len()
    &&& forall|i: int| 0 <= i < a.len() ==> #[trigger] a[i].len() == b[i].len()
}

/// Two sequences of slices whose slices agree in length concatenate to
/// sequences of the same length.
pub proof fn lemma_flatten_same_lengths<T>(a: Seq<Seq<T>>, b: Seq<Seq<T>>)
    requires
        same_lengths(a, b),
    ensures
        a.flatten().len() == b.flatten().len(),
    decreases a.len(),
{
    if a.len() > 0 {
        assert(a[0].len() == b[0].len());
        assert forall|i: int| 0 <= i < a.drop_first().len() implies #[trigger] a.drop_first()[i].len()
            == b.drop_first()[i].len() by {
            assert(a[i + 1].len() == b[i + 1].len());
        }
        lemma_flatten_same_lengths(a.drop_first(), b.drop_first());
    }
}

} // verus!
