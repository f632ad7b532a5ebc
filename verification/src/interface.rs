//! Abstract interfaces of containers. [`List`], [`Stack`] and [`Queue`],
//! which the lists of this library implement, state what each operation does
//! to the sequence of elements; the other interfaces are signatures for
//! containers built elsewhere and promise nothing.

use vstd::prelude::*;

verus! {

/// A first-in, first-out queue. Its view holds the elements in the order
/// in which they were added, the oldest first.
pub trait Queue<T>: View<V = Seq<T>> {
    /// The representation invariant of the implementing type.
    spec fn wf(&self) -> bool;

    /// Adds `e` behind the other elements.
    fn add(&mut self, e: T)
        requires
            old(self).wf(),
        ensures
            final(self).wf(),
            final(self)@ == old(self)@.push(e),
    ;

    /// Takes out the oldest element, if there is one.
    fn remove(&mut self) -> (r: Option<T>)
        requires
            old(self).wf(),
        ensures
            final(self).wf(),
            old(self)@.len() == 0 ==> r is None && final(self)@ == old(self)@,
            old(self)@.len() > 0 ==> r == Some(old(self)@[0]) && final(self)@
                == old(self)@.drop_first(),
    ;
}

/// A last-in, first-out stack. Its view holds the elements from the top
/// down, the one pushed last first.
pub trait Stack<T>: View<V = Seq<T>> {
    /// The representation invariant of the implementing type.
    spec fn wf(&self) -> bool;

    /// Puts `e` on top.
    fn push(&mut self, e: T)
        requires
            old(self).wf(),
        ensures
            final(self).wf(),
            final(self)@ == seq![e] + old(self)@,
    ;

    /// Takes the top element off, if there is one.
    fn pop(&mut self) -> (r: Option<T>)
        requires
            old(self).wf(),
        ensures
            final(self).wf(),
            old(self)@.len() == 0 ==> r is None && final(self)@ == old(self)@,
            old(self)@.len() > 0 ==> r == Some(old(self)@[0]) && final(self)@
                == old(self)@.drop_first(),
    ;
}

/// A queue that can be extended and consumed at both ends.
pub trait Deque<T> {
    fn add_first(&mut self, e: T);

    fn remove_first(&mut self) -> Option<T>;

    fn add_last(&mut self, e: T);

    fn remove_last(&mut self) -> Option<T>;
}

/// A sequence addressed by position, counted from zero.
///
/// The view of a list is the mathematical sequence of its elements. Every
/// operation is described by what it does to that sequence. An index outside
/// the list is answered with `None` and leaves the list as it was.
pub trait List<T: Clone>: View<V = Seq<T>> {
    /// The representation invariant of the implementing type.
    spec fn wf(&self) -> bool;

    /// The number of elements.
    fn size(&self) -> (n: usize)
        requires
            self.wf(),
        ensures
            n == self@.len(),
    ;

    /// A copy of the element at index `i`.
    fn get(&self, i: usize) -> (r: Option<T>)
        requires
            self.wf(),
        ensures
            i < self@.len() ==> r is Some && cloned::<T>(self@[i as int], r->0),
            i >= self@.len() ==> r is None,
    ;

    /// Puts `e` in the place of the element at index `i` and returns that
    /// element.
    fn set(&mut self, i: usize, e: T) -> (r: Option<T>)
        requires
            old(self).wf(),
        ensures
            final(self).wf(),
            i < old(self)@.len() ==> r == Some(old(self)@[i as int]) && final(self)@
                == old(self)@.update(i as int, e),
            i >= old(self)@.len() ==> r is None && final(self)@ == old(self)@,
    ;

    /// Inserts `e` at index `i`, before the element that was there; with
    /// `i` equal to the size, at the end. The list must be shorter than half
    /// of what `usize` can count, so that twice its size can be allocated.
    fn add(&mut self, i: usize, e: T)
        requires
            old(self).wf(),
            i <= old(self)@.len(),
            old(self)@.len() < usize::MAX / 2,
        ensures
            final(self).wf(),
            final(self)@ == old(self)@.insert(i as int, e),
    ;

    /// Takes the element at index `i` out of the list and returns it.
    fn remove(&mut self, i: usize) -> (r: Option<T>)
        requires
            old(self).wf(),
        ensures
            final(self).wf(),
            i < old(self)@.len() ==> r == Some(old(self)@[i as int]) && final(self)@
                == old(self)@.remove(i as int),
            i >= old(self)@.len() ==> r is None && final(self)@ == old(self)@,
    ;
}

/// An unordered set.
pub trait USet<T> {
    fn size(&self) -> usize;

    fn add(&mut self, e: T) -> bool;

    fn remove(&mut self, e: T) -> Option<T>;

    fn find(&self, e: T) -> Option<T>;
}

/// A sorted set.
pub trait SSet<T> {
    fn size(&self) -> usize;

    fn add(&mut self, e: T) -> bool;

    fn remove(&mut self, e: T) -> Option<T>;

    fn find(&self, e: T) -> Option<T>;
}

} // verus!
