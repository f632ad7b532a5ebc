//! A list in two growable arrays that meet in the middle, which makes
//! insertion and removal cheap at both ends.

use vstd::prelude::*;
use crate::array_stack::{doubled, grown_length, shrunk_length, Array as ArrayStack};
use crate::interface::List;
use crate::laws::{all_permitted, size_after, Edit};

verus! {

/// A two-ended array. The front half is stored back to front, so that the
/// first element of the list is the last one of `front`; the back half
/// follows in order.
#[derive(Clone, Debug, Eq, Hash, Ord, PartialEq, PartialOrd)]
pub struct Array<T> {
    front: ArrayStack<T>,
    back: ArrayStack<T>,
}

/// How the elements and the slots are divided between the two halves.
pub struct Shape {
    /// The number of elements in the front half.
    pub front: nat,
    /// The number of elements in the back half.
    pub back: nat,
    /// The number of slots of the front half.
    pub front_length: nat,
    /// The number of slots of the back half.
    pub back_length: nat,
}

/// Whether one half is more than three times as long as the other.
pub open spec fn lopsided(front: nat, back: nat) -> bool {
    3 * front < back || 3 * back < front
}

/// Neither half is more than three times as long as the other, unless the
/// two hold at most one element together.
pub open spec fn balanced(front: nat, back: nat) -> bool {
    front + back <= 1 || (3 * front >= back && 3 * back >= front)
}

/// The shape after rebalancing. Where one half is more than three times as
/// long as the other, the front half gets half of the elements, rounded
/// down, the back half the rest, and each a buffer of twice its size; else
/// nothing changes.
pub open spec fn rebalanced(shape: Shape) -> Shape {
    if lopsided(shape.front, shape.back) {
        let total = shape.front + shape.back;
        let front = total / 2;
        let back = (total - front) as nat;
        Shape { front, back, front_length: doubled(front), back_length: doubled(back) }
    } else {
        shape
    }
}

/// The shape after an insertion at index `i`, before rebalancing: the
/// element goes to the front half where the index lies in it, else to the
/// back half, and that half's buffer grows as a growable array's does.
pub open spec fn shape_after_add(shape: Shape, i: nat) -> Shape {
    if i < shape.front {
        Shape {
            front: shape.front + 1,
            front_length: grown_length(shape.front, shape.front_length),
            ..shape
        }
    } else {
        Shape {
            back: shape.back + 1,
            back_length: grown_length(shape.back, shape.back_length),
            ..shape
        }
    }
}

/// The shape after a removal at index `i`, before rebalancing: the element
/// leaves the half in which the index lies, and that half's buffer shrinks
/// as a growable array's does.
pub open spec fn shape_after_remove(shape: Shape, i: nat) -> Shape {
    if i < shape.front {
        Shape {
            front: (shape.front - 1) as nat,
            front_length: shrunk_length((shape.front - 1) as nat, shape.front_length),
            ..shape
        }
    } else {
        Shape {
            back: (shape.back - 1) as nat,
            back_length: shrunk_length((shape.back - 1) as nat, shape.back_length),
            ..shape
        }
    }
}

/// The shape after the edit, before rebalancing.
pub open spec fn shape_after_edit<T>(shape: Shape, edit: Edit<T>) -> Shape {
    match edit {
        Edit::Add(i, _) => shape_after_add(shape, i as nat),
        Edit::Remove(i) => shape_after_remove(shape, i as nat),
    }
}

/// The shape after the edits, each of them in range and followed by
/// rebalancing.
pub open spec fn shape_after<T>(shape: Shape, edits: Seq<Edit<T>>) -> Shape
    decreases edits.len(),
{
    if edits.len() == 0 {
        shape
    } else {
        rebalanced(shape_after_edit(shape_after(shape, edits.drop_last()), edits.last()))
    }
}

/// The number of edits after which the elements had to be redistributed.
pub open spec fn redistributions<T>(shape: Shape, edits: Seq<Edit<T>>) -> nat
    decreases edits.len(),
{
    if edits.len() == 0 {
        0
    } else {
        let moved = shape_after_edit(shape_after(shape, edits.drop_last()), edits.last());
        redistributions(shape, edits.drop_last()) + (if lopsided(moved.front, moved.back) {
            1nat
        } else {
            0nat
        })
    }
}

/// As long as nothing is redistributed, each edit moves one element in or
/// out of one half, so that three times one half exceeds the other by at
/// most three less than before.
proof fn lemma_proportion_drifts<T>(shape: Shape, edits: Seq<Edit<T>>)
    requires
        all_permitted(shape.front + shape.back, edits),
        3 * shape.front - shape.back >= 3 * edits.len(),
        3 * shape.back - shape.front >= 3 * edits.len(),
    ensures
        redistributions(shape, edits) == 0,
        shape_after(shape, edits).front + shape_after(shape, edits).back == size_after(
            shape.front + shape.back,
            edits,
        ),
        3 * shape_after(shape, edits).front - shape_after(shape, edits).back >= 3 * shape.front
            - shape.back - 3 * edits.len(),
        3 * shape_after(shape, edits).back - shape_after(shape, edits).front >= 3 * shape.back
            - shape.front - 3 * edits.len(),
    decreases edits.len(),
{
    if edits.len() > 0 {
        lemma_proportion_drifts(shape, edits.drop_last());
    }
}

/// Redistributions are rare: where the halves are equal, the back half
/// having the odd element, as a redistribution leaves them, the next `k`
/// edits bring none if `3 * k + 2` is at most the size.
pub proof fn lemma_redistributions_are_spaced<T>(shape: Shape, edits: Seq<Edit<T>>)
    requires
        all_permitted(shape.front + shape.back, edits),
        shape.front == (shape.front + shape.back) / 2,
        3 * edits.len() + 2 <= shape.front + shape.back,
    ensures
        redistributions(shape, edits) == 0,
{
    lemma_proportion_drifts(shape, edits);
}

impl<T> View for Array<T> {
    type V = Seq<T>;

    closed spec fn view(&self) -> Seq<T> {
        self.front@.reverse() + self.back@
    }
}

impl<T> Array<T> {
    /// Both halves are well formed and their lengths add up within `usize`.
    pub closed spec fn wf(&self) -> bool {
        &&& self.front.wf()
        &&& self.back.wf()
        &&& self.front@.len() + self.back@.len() < usize::MAX
    }

    /// How the elements and the slots are divided between the halves.
    pub closed spec fn shape(&self) -> Shape {
        Shape {
            front: self.front@.len(),
            back: self.back@.len(),
            front_length: self.front.length() as nat,
            back_length: self.back.length() as nat,
        }
    }

    /// The two halves make up the list, and each fits in its buffer.
    pub proof fn lemma_halves(&self)
        requires
            self.wf(),
        ensures
            self.shape().front + self.shape().back == self@.len(),
            self.shape().front <= self.shape().front_length,
            self.shape().back <= self.shape().back_length,
    {
        self.front.lemma_size_within_length();
        self.back.lemma_size_within_length();
    }
}

/// Whether `3 * a < b`, computed without overflow.
fn triple_less(a: usize, b: usize) -> (r: bool)
    ensures
        r == (3 * a < b),
{
    a < b / 3 || (a == b / 3 && b % 3 != 0)
}

impl<T> Default for Array<T> {
    /// An empty list whose halves have no buffer.
    fn default() -> (r: Self)
        ensures
            r.wf(),
            r@ == Seq::<T>::empty(),
            r.shape() == (Shape { front: 0, back: 0, front_length: 0, back_length: 0 }),
    {
        let r = Self { front: ArrayStack::default(), back: ArrayStack::default() };
        assert(r@ =~= Seq::<T>::empty());
        r
    }
}

impl<T: Clone> Array<T> {
    /// The number of elements in the front half.
    pub fn front_size(&self) -> (n: usize)
        requires
            self.wf(),
        ensures
            n == self.shape().front,
    {
        self.front.size()
    }

    /// The number of elements in the back half.
    pub fn back_size(&self) -> (n: usize)
        requires
            self.wf(),
        ensures
            n == self.shape().back,
    {
        self.back.size()
    }

    /// An empty list.
    pub fn new() -> (r: Self)
        ensures
            r.wf(),
            r@ == Seq::<T>::empty(),
            r.shape() == (Shape { front: 0, back: 0, front_length: 1, back_length: 1 }),
    {
        let r = Self { front: ArrayStack::new(), back: ArrayStack::new() };
        assert(r@ =~= Seq::<T>::empty());
        r
    }

    /// Takes the first element out of the list, whatever that does to the
    /// proportion between the halves.
    fn take_first(&mut self) -> (e: T)
        requires
            old(self).wf(),
            old(self)@.len() > 0,
        ensures
            final(self).wf(),
            final(self)@ == old(self)@.subrange(1, old(self)@.len() as int),
            e == old(self)@[0],
    {
        let f = self.front.size();
        let first = if f > 0 {
            self.front.remove(f - 1)
        } else {
            self.back.remove(0)
        };
        assert(self@ =~= old(self)@.subrange(1, old(self)@.len() as int));
        first.unwrap()
    }

    /// Restores the proportion between the halves. Where one half is more
    /// than three times as long as the other, the elements are moved, first
    /// to last, into two fresh halves of equal size (the back half takes
    /// the odd element); else the list stays as it is.
    pub fn balance(&mut self)
        requires
            old(self).wf(),
        ensures
            final(self).wf(),
            final(self)@ == old(self)@,
            final(self).shape() == rebalanced(old(self).shape()),
            balanced(final(self).shape().front, final(self).shape().back),
            !lopsided(old(self).shape().front, old(self).shape().back) ==> *final(self) == *old(
                self,
            ),
    {
        let f = self.front.size();
        let b = self.back.size();
        if triple_less(f, b) || triple_less(b, f) {
            let new_size = f + b;
            let new_front_size = new_size / 2;
            let new_back_size = new_size - new_front_size;
            let front_length: usize = if new_front_size > 0 { 2 * new_front_size } else { 1 };
            let back_length: usize = if new_back_size > 0 { 2 * new_back_size } else { 1 };
            let mut new_front: ArrayStack<T> = ArrayStack::with_length(front_length);
            let mut new_back: ArrayStack<T> = ArrayStack::with_length(back_length);

            let mut i: usize = 0;
            while i < new_front_size
                invariant
                    i <= new_front_size,
                    new_front_size + new_back_size == old(self)@.len(),
                    new_front_size <= usize::MAX / 2,
                    self.wf(),
                    self@ == old(self)@.subrange(i as int, old(self)@.len() as int),
                    new_front.wf(),
                    new_front@ == old(self)@.subrange(0, i as int).reverse(),
                    new_front.length() == doubled(new_front_size as nat),
                decreases new_front_size - i,
            {
                let first = self.take_first();
                new_front.add(0, first);
                assert(new_front@ =~= old(self)@.subrange(0, i + 1).reverse());
                assert(self@ =~= old(self)@.subrange(i + 1, old(self)@.len() as int));
                i += 1;
            }
            let mut i: usize = 0;
            while i < new_back_size
                invariant
                    i <= new_back_size,
                    new_front_size + new_back_size == old(self)@.len(),
                    new_back_size <= usize::MAX / 2,
                    self.wf(),
                    self@ == old(self)@.subrange(new_front_size + i, old(self)@.len() as int),
                    new_back.wf(),
                    new_back@ == old(self)@.subrange(new_front_size as int, new_front_size + i),
                    new_back.length() == doubled(new_back_size as nat),
                    new_front.wf(),
                    new_front@ == old(self)@.subrange(0, new_front_size as int).reverse(),
                    new_front.length() == doubled(new_front_size as nat),
                decreases new_back_size - i,
            {
                let first = self.take_first();
                new_back.add(i, first);
                assert(new_back@ =~= old(self)@.subrange(
                    new_front_size as int,
                    new_front_size + i + 1,
                ));
                assert(self@ =~= old(self)@.subrange(
                    new_front_size + i + 1,
                    old(self)@.len() as int,
                ));
                i += 1;
            }

            self.front = new_front;
            self.back = new_back;
            assert(self@ =~= old(self)@);
        }
    }
}

impl<T: Clone> List<T> for Array<T> {
    open spec fn wf(&self) -> bool {
        Array::<T>::wf(self)
    }

    fn size(&self) -> (n: usize) {
        self.front.size() + self.back.size()
    }

    fn get(&self, i: usize) -> (r: Option<T>) {
        let f = self.front.size();
        if i < f {
            self.front.get(f - i - 1)
        } else {
            self.back.get(i - f)
        }
    }

    fn set(&mut self, i: usize, e: T) -> (r: Option<T>)
        ensures
            final(self).shape() == old(self).shape(),
            i >= old(self)@.len() ==> *final(self) == *old(self),
    {
        let f = self.front.size();
        let r = if i < f {
            self.front.set(f - i - 1, e)
        } else {
            self.back.set(i - f, e)
        };
        assert(i < old(self)@.len() ==> self@ =~= old(self)@.update(i as int, e));
        r
    }

    fn add(&mut self, i: usize, e: T)
        ensures
            final(self).shape() == rebalanced(shape_after_add(old(self).shape(), i as nat)),
            balanced(final(self).shape().front, final(self).shape().back),
    {
        let f = self.front.size();
        if i < f {
            self.front.add(f - i, e);
        } else {
            self.back.add(i - f, e);
        }
        assert(self@ =~= old(self)@.insert(i as int, e));
        self.balance()
    }

    fn remove(&mut self, i: usize) -> (r: Option<T>)
        ensures
            i < old(self)@.len() ==> final(self).shape() == rebalanced(
                shape_after_remove(old(self).shape(), i as nat),
            ),
            i < old(self)@.len() ==> balanced(final(self).shape().front, final(self).shape().back),
            i >= old(self)@.len() ==> *final(self) == *old(self),
    {
        let f = self.front.size();
        let b = self.back.size();
        if i >= f + b {
            return None;
        }
        let e = if i < f {
            self.front.remove(f - i - 1)
        } else {
            self.back.remove(i - f)
        };
        assert(self@ =~= old(self)@.remove(i as int));
        self.balance();
        e
    }
}

} // verus!
