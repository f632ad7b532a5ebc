//! What holds of every list, stack and queue, whatever stores it: the
//! containers of this library describe their operations by the sequence of
//! elements they hold, and these are the consequences for sizes, order and
//! round trips.

use vstd::prelude::*;

verus! {

/// One change of a list.
pub enum Edit<T> {
    /// Insert the element at the index.
    Add(int, T),
    /// Take out the element at the index.
    Remove(int),
}

/// Whether the index of the edit is in range for a list of `size`
/// elements.
pub open spec fn permitted<T>(size: nat, edit: Edit<T>) -> bool {
    match edit {
        Edit::Add(i, _) => 0 <= i <= size,
        Edit::Remove(i) => 0 <= i < size,
    }
}

/// The list after the edit: what `add` and `remove` of
/// [`List`](crate::interface::List) make of the view, for an index in range.
pub open spec fn apply<T>(list: Seq<T>, edit: Edit<T>) -> Seq<T> {
    match edit {
        Edit::Add(i, e) => list.insert(i, e),
        Edit::Remove(i) => list.remove(i),
    }
}

/// The list after the edits, made first to last.
pub open spec fn apply_all<T>(list: Seq<T>, edits: Seq<Edit<T>>) -> Seq<T>
    decreases edits.len(),
{
    if edits.len() == 0 {
        list
    } else {
        apply(apply_all(list, edits.drop_last()), edits.last())
    }
}

/// The size of a list of `size` elements after the edits.
pub open spec fn size_after<T>(size: nat, edits: Seq<Edit<T>>) -> nat
    decreases edits.len(),
{
    if edits.len() == 0 {
        size
    } else {
        match edits.last() {
            Edit::Add(_, _) => size_after(size, edits.drop_last()) + 1,
            Edit::Remove(_) => (size_after(size, edits.drop_last()) - 1) as nat,
        }
    }
}

/// Whether each edit is in range for the list that the edits before it
/// leave of a list of `size` elements.
pub open spec fn all_permitted<T>(size: nat, edits: Seq<Edit<T>>) -> bool
    decreases edits.len(),
{
    edits.len() == 0 || (all_permitted(size, edits.drop_last()) && permitted(
        size_after(size, edits.drop_last()),
        edits.last(),
    ))
}

/// The number of insertions among the edits.
pub open spec fn adds<T>(edits: Seq<Edit<T>>) -> nat
    decreases edits.len(),
{
    if edits.len() == 0 {
        0
    } else {
        adds(edits.drop_last()) + (if edits.last() is Add { 1nat } else { 0nat })
    }
}

/// The number of removals among the edits.
pub open spec fn removes<T>(edits: Seq<Edit<T>>) -> nat
    decreases edits.len(),
{
    if edits.len() == 0 {
        0
    } else {
        removes(edits.drop_last()) + (if edits.last() is Remove { 1nat } else { 0nat })
    }
}

/// The edits that add the elements at the tail of a list of `start`
/// elements, one after the other.
pub open spec fn appends<T>(start: nat, elements: Seq<T>) -> Seq<Edit<T>> {
    Seq::new(elements.len(), |k: int| Edit::Add(start + k, elements[k]))
}

/// After edits in range, a list has grown by the number of insertions and
/// shrunk by the number of removals.
pub proof fn lemma_size_counts_edits<T>(list: Seq<T>, edits: Seq<Edit<T>>)
    requires
        all_permitted(list.len(), edits),
    ensures
        apply_all(list, edits).len() == size_after(list.len(), edits),
        apply_all(list, edits).len() == list.len() + adds(edits) - removes(edits),
    decreases edits.len(),
{
    if edits.len() > 0 {
        lemma_size_counts_edits(list, edits.drop_last());
    }
}

/// An element that was added at an index is the one found there.
pub proof fn lemma_add_then_get<T>(list: Seq<T>, i: int, e: T)
    requires
        0 <= i <= list.len(),
    ensures
        list.insert(i, e)[i] == e,
{
}

/// An insertion keeps the elements that were there in their order: those
/// before the index stay where they are, those from the index on move up by
/// one place.
pub proof fn lemma_add_keeps_order<T>(list: Seq<T>, i: int, e: T)
    requires
        0 <= i <= list.len(),
    ensures
        list.insert(i, e).len() == list.len() + 1,
        forall|j: int| 0 <= j < i ==> list.insert(i, e)[j] == list[j],
        forall|j: int| i <= j < list.len() ==> list.insert(i, e)[j + 1] == list[j],
{
}

/// Elements added at the tail, one after the other, follow the list in the
/// order in which they were added.
pub proof fn lemma_appends_in_order<T>(list: Seq<T>, elements: Seq<T>)
    ensures
        all_permitted(list.len(), appends(list.len(), elements)),
        apply_all(list, appends(list.len(), elements)) == list + elements,
    decreases elements.len(),
{
    let edits = appends(list.len(), elements);
    if elements.len() == 0 {
        assert(list + elements =~= list);
    } else {
        let before = elements.drop_last();
        lemma_appends_in_order(list, before);
        assert(edits.drop_last() =~= appends(list.len(), before));
        lemma_size_counts_edits(list, edits.drop_last());
        assert((list + before).insert((list.len() + before.len()) as int, elements.last()) =~= list
            + elements);
    }
}

/// Putting a removed element back where it was restores the list.
pub proof fn lemma_remove_then_add<T>(list: Seq<T>, i: int)
    requires
        0 <= i < list.len(),
    ensures
        list.remove(i).insert(i, list[i]) == list,
{
    assert(list.remove(i).insert(i, list[i]) =~= list);
}

/// A stack gives back what was pushed last and is then as it was before.
pub proof fn lemma_push_then_pop<T>(stack: Seq<T>, e: T)
    ensures
        (seq![e] + stack)[0] == e,
        (seq![e] + stack).drop_first() == stack,
{
    assert((seq![e] + stack).drop_first() =~= stack);
}

/// A queue gives out what was added last after all that was there, which
/// it gives out in the order in which it was there.
pub proof fn lemma_add_waits_its_turn<T>(queue: Seq<T>, e: T)
    ensures
        queue.push(e).subrange(0, queue.len() as int) == queue,
        queue.push(e)[queue.len() as int] == e,
        queue.len() > 0 ==> queue.push(e).drop_first() == queue.drop_first().push(e),
{
    assert(queue.push(e).subrange(0, queue.len() as int) =~= queue);
    if queue.len() > 0 {
        assert(queue.push(e).drop_first() =~= queue.drop_first().push(e));
    }
}

} // verus!
