//! A list in one contiguous buffer that doubles when it is full and halves
//! when less than a third of it is in use.

use vstd::prelude::*;
use crate::interface::List;
use crate::laws::{all_permitted, size_after, Edit};

verus! {

/// A growable array: the elements stand in the first `size` slots of a
/// buffer, in order, and the remaining slots are empty.
#[derive(Clone, Debug, Eq, Hash, Ord, PartialEq, PartialOrd)]
pub struct Array<T> {
    a: Vec<Option<T>>,
    sz: usize,
}

/// The capacity after an insertion into an array of `size` elements and
/// `length` slots: twice the size, and at least two, where the new element
/// would fill the last free slot; else unchanged.
pub open spec fn grown_length(size: nat, length: nat) -> nat {
    if size + 1 >= length {
        2 * (if size > 1 { size } else { 1 })
    } else {
        length
    }
}

/// The capacity after a removal that leaves `size` elements in `length`
/// slots: twice the size, and at least one, where the slots are three times
/// the elements or more; else unchanged.
pub open spec fn shrunk_length(size: nat, length: nat) -> nat {
    if length >= 3 * size {
        doubled(size)
    } else {
        length
    }
}

/// Twice the size, and one slot where there is no element.
pub open spec fn doubled(size: nat) -> nat {
    if size > 0 {
        2 * size
    } else {
        1
    }
}

/// The capacity of an array of `size` elements in `length` slots after the
/// edits, each of them in range.
pub open spec fn length_after<T>(size: nat, length: nat, edits: Seq<Edit<T>>) -> nat
    decreases edits.len(),
{
    if edits.len() == 0 {
        length
    } else {
        let before = length_after(size, length, edits.drop_last());
        match edits.last() {
            Edit::Add(_, _) => grown_length(size_after(size, edits.drop_last()), before),
            Edit::Remove(_) => shrunk_length(size_after(size, edits), before),
        }
    }
}

/// An edit that changes the capacity leaves twice as many slots as there
/// are elements, or two slots less.
pub proof fn lemma_resize_doubles(size: nat, length: nat)
    ensures
        grown_length(size, length) != length ==> 2 * (size + 1) - 2 <= grown_length(size, length)
            <= 2 * (size + 1),
        size > 0 && shrunk_length(size, length) != length ==> shrunk_length(size, length) == 2
            * size,
{
}

/// Resizes are rare: where the slots are twice the elements, or two less,
/// as a resize leaves them, the next `k` edits keep the capacity if
/// `3 * k + 4` is at most the size.
pub proof fn lemma_resizes_are_spaced<T>(size: nat, length: nat, edits: Seq<Edit<T>>)
    requires
        all_permitted(size, edits),
        2 * size - 2 <= length <= 2 * size,
        3 * edits.len() + 4 <= size,
    ensures
        length_after(size, length, edits) == length,
        size - edits.len() <= size_after(size, edits) <= size + edits.len(),
    decreases edits.len(),
{
    if edits.len() > 0 {
        lemma_resizes_are_spaced(size, length, edits.drop_last());
    }
}

impl<T> View for Array<T> {
    type V = Seq<T>;

    closed spec fn view(&self) -> Seq<T> {
        Seq::new(self.sz as nat, |i: int| self.a@[i]->0)
    }
}

impl<T> Array<T> {
    /// The used slots come first and are exactly those that hold an element.
    pub closed spec fn wf(&self) -> bool {
        &&& self.sz <= self.a@.len()
        &&& forall|i: int|
            0 <= i < self.a@.len() ==> ((#[trigger] self.a@[i]) is Some <==> i < self.sz)
    }

    /// The number of slots of the buffer.
    pub closed spec fn spec_length(&self) -> usize {
        self.a.len()
    }

    /// The elements never outnumber the slots.
    pub proof fn lemma_size_within_length(&self)
        requires
            self.wf(),
        ensures
            self@.len() <= self.length(),
    {
    }

    /// The capacity: the number of slots of the buffer.
    #[verifier::when_used_as_spec(spec_length)]
    pub fn length(&self) -> (n: usize)
        ensures
            n == self.spec_length(),
    {
        self.a.len()
    }

    /// An empty array with one slot.
    pub fn new() -> (r: Self)
        ensures
            r.wf(),
            r@ == Seq::<T>::empty(),
            r.length() == 1,
    {
        Self::with_length(1)
    }

    /// An empty array with `capacity` slots.
    pub fn with_length(capacity: usize) -> (r: Self)
        ensures
            r.wf(),
            r@ == Seq::<T>::empty(),
            r.length() == capacity,
    {
        let r = Self { a: Self::allocate_in_heap(capacity), sz: 0 };
        assert(r@ =~= Seq::<T>::empty());
        r
    }

    /// A buffer of `size` empty slots.
    pub(crate) fn allocate_in_heap(size: usize) -> (v: Vec<Option<T>>)
        ensures
            v@.len() == size,
            forall|i: int| 0 <= i < size ==> (#[trigger] v@[i]) is None,
    {
        let mut v: Vec<Option<T>> = Vec::new();
        let mut k: usize = 0;
        while k < size
            invariant
                k <= size,
                v@.len() == k,
                forall|i: int| 0 <= i < k ==> (#[trigger] v@[i]) is None,
            decreases size - k,
        {
            v.push(None);
            k += 1;
        }
        v
    }

    /// Moves the elements into a fresh buffer of `capacity` slots.
    fn resize(&mut self, capacity: usize)
        requires
            old(self).wf(),
            old(self)@.len() <= capacity,
        ensures
            final(self).wf(),
            final(self)@ == old(self)@,
            final(self).length() == capacity,
    {
        let mut new_a = Self::allocate_in_heap(capacity);
        let mut k: usize = 0;
        while k < self.sz
            invariant
                k <= self.sz <= capacity,
                self.sz == old(self).sz,
                self.a@.len() == old(self).a@.len(),
                self.sz <= self.a@.len(),
                new_a@.len() == capacity,
                forall|j: int| 0 <= j < k ==> (#[trigger] new_a@[j]) == old(self).a@[j],
                forall|j: int| k <= j < capacity ==> (#[trigger] new_a@[j]) is None,
                forall|j: int|
                    k <= j < self.a@.len() ==> (#[trigger] self.a@[j]) == old(self).a@[j],
            decreases self.sz - k,
        {
            let elem = self.a[k].take();
            new_a[k] = elem;
            k += 1;
        }
        self.a = new_a;
        assert(self@ =~= old(self)@);
    }

    /// Borrows the element at index `i`, where there is one.
    pub fn get_ref(&self, i: usize) -> (r: Option<&T>)
        requires
            self.wf(),
        ensures
            i < self@.len() ==> r == Some(&self@[i as int]),
            i >= self@.len() ==> r is None,
    {
        if i < self.sz {
            self.a[i].as_ref()
        } else {
            None
        }
    }
}

impl<T> Default for Array<T> {
    /// An empty array without a buffer.
    fn default() -> (r: Self)
        ensures
            r.wf(),
            r@ == Seq::<T>::empty(),
            r.length() == 0,
    {
        Self::with_length(0)
    }
}

impl<T: Clone> List<T> for Array<T> {
    open spec fn wf(&self) -> bool {
        Array::<T>::wf(self)
    }

    fn size(&self) -> (n: usize) {
        self.sz
    }

    fn get(&self, i: usize) -> (r: Option<T>) {
        if i < self.sz {
            self.a[i].clone()
        } else {
            None
        }
    }

    /// The capacity stays as it is.
    fn set(&mut self, i: usize, e: T) -> (r: Option<T>)
        ensures
            final(self).length() == old(self).length(),
            i >= old(self)@.len() ==> *final(self) == *old(self),
    {
        if i < self.sz {
            let previous = self.a[i].take();
            self.a[i] = Some(e);
            assert(self@ =~= old(self)@.update(i as int, e));
            previous
        } else {
            None
        }
    }

    /// Where the new element would fill the last free slot, the elements
    /// are first moved to a buffer of twice the size.
    fn add(&mut self, i: usize, e: T)
        ensures
            final(self).length() == grown_length(old(self)@.len(), old(self).length() as nat),
    {
        if self.sz + 1 >= self.a.len() {
            let n: usize = if self.sz > 1 { self.sz } else { 1 };
            self.resize(2 * n);
        }
        let mut k: usize = self.sz;
        while k > i
            invariant
                i <= k <= self.sz,
                self.sz == old(self).sz,
                self.sz < self.a@.len(),
                self.a@.len() == grown_length(old(self)@.len(), old(self).length() as nat),
                forall|j: int| 0 <= j < k ==> (#[trigger] self.a@[j]) == Some(old(self)@[j]),
                forall|j: int|
                    k < j <= self.sz ==> (#[trigger] self.a@[j]) == Some(old(self)@[j - 1]),
                forall|j: int| self.sz < j < self.a@.len() ==> (#[trigger] self.a@[j]) is None,
                self.a@[k as int] is None,
            decreases k,
        {
            let moved = self.a[k - 1].take();
            self.a[k] = moved;
            k -= 1;
        }
        self.a[i] = Some(e);
        self.sz += 1;
        assert(self@ =~= old(self)@.insert(i as int, e));
    }

    /// Where the slots are then three times the elements or more, the
    /// elements are moved to a buffer of twice their number, so that the
    /// capacity stays under three times the size, but for one slot that an
    /// empty array keeps.
    fn remove(&mut self, i: usize) -> (r: Option<T>)
        ensures
            i < old(self)@.len() ==> final(self).length() == shrunk_length(
                final(self)@.len(),
                old(self).length() as nat,
            ),
            i < old(self)@.len() ==> final(self).length() < 3 * final(self)@.len() + 2,
            i >= old(self)@.len() ==> *final(self) == *old(self),
    {
        if i >= self.sz {
            return None;
        }
        let removed = self.a[i].take();
        let mut k: usize = i;
        while k + 1 < self.sz
            invariant
                i <= k < self.sz,
                self.sz == old(self).sz,
                self.sz <= self.a@.len(),
                self.a@.len() == old(self).a@.len(),
                forall|j: int| 0 <= j < i ==> (#[trigger] self.a@[j]) == Some(old(self)@[j]),
                forall|j: int| i <= j < k ==> (#[trigger] self.a@[j]) == Some(old(self)@[j + 1]),
                forall|j: int| k < j < self.sz ==> (#[trigger] self.a@[j]) == Some(old(self)@[j]),
                forall|j: int| self.sz <= j < self.a@.len() ==> (#[trigger] self.a@[j]) is None,
                self.a@[k as int] is None,
            decreases self.sz - k,
        {
            let moved = self.a[k + 1].take();
            self.a[k] = moved;
            k += 1;
        }
        self.sz -= 1;
        assert(self@ =~= old(self)@.remove(i as int));
        if self.a.len() / 3 >= self.sz {
            let n: usize = if self.sz > 0 { 2 * self.sz } else { 1 };
            self.resize(n);
        }
        removed
    }
}

} // verus!
