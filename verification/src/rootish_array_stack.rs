//! A list in blocks of growing size: block `b` has `b + 1` slots, so that
//! the slots that stand empty never outnumber the last two blocks.

use vstd::prelude::*;
use crate::array_stack::Array as ArrayStack;
use crate::interface::List;

verus! {

/// The number of slots in the first `n` blocks: `1 + 2 + ... + n`.
pub open spec fn triangular(n: nat) -> nat {
    n * (n + 1) / 2
}

/// Whether position `i` lies in block `b`, which follows the slots of the
/// `b` blocks before it and has `b + 1` slots of its own.
pub open spec fn in_block(i: nat, b: nat) -> bool {
    triangular(b) <= i < triangular(b + 1)
}

/// The block that holds position `i`.
pub open spec fn block_of(i: nat) -> nat {
    choose|b: nat| in_block(i, b)
}

/// Whether the last of `blocks` blocks is to spare for `size` elements: the
/// blocks before the last two have room for all of them.
pub open spec fn spare(blocks: nat, size: nat) -> bool {
    blocks > 0 && (blocks - 2) * (blocks - 1) / 2 >= size
}

/// The number of blocks after an insertion into `size` elements in `blocks`
/// blocks: one more where every slot is taken; else unchanged.
pub open spec fn grown_blocks(blocks: nat, size: nat) -> nat {
    if triangular(blocks) < size + 1 {
        blocks + 1
    } else {
        blocks
    }
}

/// Whether `blocks` is the smallest number of blocks with a slot for each
/// of `size` elements.
pub open spec fn fewest_blocks(blocks: nat, size: nat) -> bool {
    size <= triangular(blocks) && (blocks > 0 ==> triangular((blocks - 1) as nat) < size)
}

/// The number of blocks after `n` insertions into an empty block array.
pub open spec fn blocks_after_adds(n: nat) -> nat
    decreases n,
{
    if n == 0 {
        0
    } else {
        grown_blocks(blocks_after_adds((n - 1) as nat), (n - 1) as nat)
    }
}

/// The number of blocks that are kept of `blocks` for `size` elements: the
/// last block is dropped as long as it is to spare.
pub open spec fn kept_blocks(blocks: nat, size: nat) -> nat
    decreases blocks,
{
    if spare(blocks, size) {
        kept_blocks((blocks - 1) as nat, size)
    } else {
        blocks
    }
}

/// Without blocks there are no slots.
pub proof fn lemma_triangular_zero()
    ensures
        triangular(0) == 0,
{
    assert(0 * (0 + 1) == 0) by (nonlinear_arith);
}

/// Each block adds one slot more than the block before it.
pub proof fn lemma_triangular_step(n: nat)
    ensures
        triangular(n + 1) == triangular(n) + n + 1,
{
    assert((n + 1) * (n + 2) == n * (n + 1) + 2 * (n + 1)) by (nonlinear_arith);
}

/// More blocks have more slots.
pub proof fn lemma_triangular_monotonic(a: nat, b: nat)
    requires
        a <= b,
    ensures
        triangular(a) <= triangular(b),
    decreases b - a,
{
    if a < b {
        lemma_triangular_monotonic(a, (b - 1) as nat);
        lemma_triangular_step((b - 1) as nat);
    }
}

/// Every position lies in a block.
proof fn lemma_block_exists(i: nat)
    ensures
        exists|b: nat| in_block(i, b),
    decreases i,
{
    if i == 0 {
        lemma_triangular_zero();
        lemma_triangular_step(0);
        assert(in_block(i, 0));
    } else {
        let h = (i - 1) as nat;
        lemma_block_exists(h);
        let b = choose|b: nat| in_block(h, b);
        if i < triangular(b + 1) {
            assert(in_block(i, b));
        } else {
            lemma_triangular_step(b + 1);
            assert(in_block(i, b + 1));
        }
    }
}

/// A position lies in exactly one block.
pub proof fn lemma_block_of(i: nat, b: nat)
    ensures
        in_block(i, b) <==> b == block_of(i),
{
    lemma_block_exists(i);
    let c = block_of(i);
    if b < c {
        lemma_triangular_monotonic(b + 1, c);
    }
    if c < b {
        lemma_triangular_monotonic(c + 1, b);
    }
}

/// The last block is to spare where the blocks before the last two, if
/// there are any, have a slot for each element.
pub proof fn lemma_spare(blocks: nat, size: nat)
    ensures
        spare(blocks, size) <==> blocks > 0 && triangular(
            if blocks > 2 {
                (blocks - 2) as nat
            } else {
                0
            },
        ) >= size,
{
    lemma_triangular_zero();
    if blocks == 1 {
        assert((blocks - 2) * (blocks - 1) == 0) by (nonlinear_arith)
            requires
                blocks == 1,
        ;
    } else if blocks == 2 {
        assert((blocks - 2) * (blocks - 1) == 0) by (nonlinear_arith)
            requires
                blocks == 2,
        ;
    } else if blocks > 2 {
        let n = (blocks - 2) as nat;
        assert(n * (n + 1) == (blocks - 2) * (blocks - 1)) by (nonlinear_arith)
            requires
                n == blocks - 2,
        ;
    }
}

/// Where the elements fit and no block is to spare, the empty slots are
/// fewer than two blocks hold, no number of blocks that has room for the
/// elements is smaller by more than one, and the number of blocks grows
/// with the square root of the size.
pub proof fn lemma_slack(blocks: nat, size: nat)
    requires
        size <= triangular(blocks),
        !spare(blocks, size),
    ensures
        triangular(blocks) <= size + 2 * blocks,
        forall|m: nat| size <= #[trigger] triangular(m) ==> blocks <= m + 1,
        blocks >= 2 ==> (blocks - 2) * (blocks - 2) < 2 * size,
{
    lemma_spare(blocks, size);
    lemma_triangular_zero();
    if blocks >= 2 {
        let n = (blocks - 2) as nat;
        lemma_triangular_step(n);
        lemma_triangular_step(n + 1);
        assert(n * n <= 2 * triangular(n)) by (nonlinear_arith)
            requires
                triangular(n) == n * (n + 1) / 2,
        ;
        assert(n * n == (blocks - 2) * (blocks - 2)) by (nonlinear_arith)
            requires
                n == blocks - 2,
        ;
    } else if blocks == 1 {
        lemma_triangular_step(0);
    }
    assert forall|m: nat| size <= #[trigger] triangular(m) implies blocks <= m + 1 by {
        if blocks >= m + 2 {
            lemma_triangular_monotonic(m, (blocks - 2) as nat);
        }
    }
}

/// An array that only grows never has a block more than it needs.
pub proof fn lemma_adds_use_fewest_blocks(n: nat)
    ensures
        fewest_blocks(blocks_after_adds(n), n),
    decreases n,
{
    lemma_triangular_zero();
    if n > 0 {
        lemma_adds_use_fewest_blocks((n - 1) as nat);
        lemma_triangular_step(blocks_after_adds((n - 1) as nat));
    }
}

/// Dropping the blocks that are to spare leaves room for the elements and
/// no block to spare.
pub proof fn lemma_kept_blocks(blocks: nat, size: nat)
    requires
        size <= triangular(blocks),
    ensures
        kept_blocks(blocks, size) <= blocks,
        size <= triangular(kept_blocks(blocks, size)),
        !spare(kept_blocks(blocks, size), size),
    decreases blocks,
{
    lemma_spare(blocks, size);
    if spare(blocks, size) {
        let rest = (blocks - 1) as nat;
        lemma_triangular_monotonic(if blocks > 2 { (blocks - 2) as nat } else { 0 }, rest);
        lemma_kept_blocks(rest, size);
    }
}

/// A position below the slots of `r` blocks lies in one of them, at an
/// offset that the block has.
proof fn lemma_locate(p: nat, r: nat)
    requires
        p < triangular(r),
    ensures
        block_of(p) < r,
        triangular(block_of(p)) <= p,
        p - triangular(block_of(p)) <= block_of(p),
{
    let b = block_of(p);
    lemma_block_of(p, b);
    lemma_triangular_step(b);
    if b >= r {
        lemma_triangular_monotonic(r, b);
    }
}

/// The number of slots in the first `blocks` blocks.
fn slots_in(blocks: usize) -> (n: u128)
    ensures
        n == triangular(blocks as nat),
{
    let r = blocks as u128;
    assert(r * (r + 1) <= u128::MAX) by (nonlinear_arith)
        requires
            r <= 0xffff_ffff_ffff_ffff,
    ;
    r * (r + 1) / 2
}

/// Whether the last of `blocks` blocks is to spare for `size` elements.
fn is_spare(blocks: usize, size: usize) -> (r: bool)
    ensures
        r == spare(blocks as nat, size as nat),
{
    proof {
        lemma_spare(blocks as nat, size as nat);
        lemma_triangular_zero();
    }
    if blocks > 2 {
        slots_in(blocks - 2) >= size as u128
    } else {
        blocks > 0 && size == 0
    }
}

/// The flat position of the first slot of block `b`.
fn block_start(b: usize) -> (p: usize)
    requires
        triangular(b as nat) <= usize::MAX,
    ensures
        p == triangular(b as nat),
{
    slots_in(b) as usize
}

/// A block array. Block `b` of the directory has `b + 1` slots; laid end to
/// end, the blocks hold the elements in their first `size` slots.
pub struct Array<T> {
    blocks: ArrayStack<Vec<Option<T>>>,
    sz: usize,
}

impl<T> View for Array<T> {
    type V = Seq<T>;

    closed spec fn view(&self) -> Seq<T> {
        Seq::new(self.sz as nat, |p: int| flat(self.blocks@)[p]->0)
    }
}

/// The slots of the blocks laid end to end.
spec fn flat<T>(blocks: Seq<Vec<Option<T>>>) -> Seq<Option<T>> {
    Seq::new(
        triangular(blocks.len()),
        |p: int|
            {
                let b = block_of(p as nat);
                blocks[b as int]@[p - triangular(b)]
            },
    )
}

impl<T> Array<T> {
    /// The directory is well formed and block `b` has `b + 1` slots.
    closed spec fn shaped(&self) -> bool {
        &&& self.blocks.wf()
        &&& forall|b: int|
            0 <= b < self.blocks@.len() ==> (#[trigger] self.blocks@[b])@.len() == b + 1
    }

    /// The blocks have room for the elements, the blocks before the last
    /// two do not, and the slots that hold an element are the first `size`.
    pub closed spec fn wf(&self) -> bool {
        &&& self.shaped()
        &&& self.sz <= triangular(self.blocks@.len())
        &&& !spare(self.blocks@.len(), self.sz as nat)
        &&& forall|p: int|
            0 <= p < triangular(self.blocks@.len()) ==> ((#[trigger] flat(self.blocks@)[p]) is Some
                <==> p < self.sz)
    }
}

impl<T: Clone> Default for Array<T> {
    /// An empty list without blocks.
    fn default() -> (r: Self)
        ensures
            r.wf(),
            r@ == Seq::<T>::empty(),
            r.block_count() == 0,
    {
        Self::new()
    }
}

impl<T: Clone> Array<T> {
    /// An empty list without blocks.
    pub fn new() -> (r: Self)
        ensures
            r.wf(),
            r@ == Seq::<T>::empty(),
            r.block_count() == 0,
    {
        let r = Self { blocks: ArrayStack::new(), sz: 0 };
        assert(r@ =~= Seq::<T>::empty());
        proof {
            lemma_triangular_zero();
        }
        r
    }

    /// The number of blocks.
    pub closed spec fn spec_block_count(&self) -> usize {
        self.blocks@.len() as usize
    }

    /// The blocks have a slot for each element and none of them is to
    /// spare: the empty slots are fewer than two blocks hold, and no number
    /// of blocks that has room for the elements is smaller by more than
    /// one.
    pub proof fn lemma_block_bounds(&self)
        requires
            self.wf(),
        ensures
            self@.len() <= triangular(self.block_count() as nat),
            !spare(self.block_count() as nat, self@.len()),
            triangular(self.block_count() as nat) <= self@.len() + 2 * self.block_count(),
            forall|m: nat| self@.len() <= #[trigger] triangular(m) ==> self.block_count() <= m + 1,
    {
        self.blocks.lemma_size_within_length();
        lemma_slack(self.blocks@.len(), self.sz as nat);
    }

    /// The number of blocks.
    #[verifier::when_used_as_spec(spec_block_count)]
    pub fn block_count(&self) -> (r: usize)
        requires
            self.wf(),
        ensures
            r == self.spec_block_count(),
    {
        self.blocks.size()
    }

    /// Puts `v` into the slot at flat position `p` and hands back what
    /// the slot held.
    fn replace_slot(&mut self, p: usize, v: Option<T>) -> (previous: Option<T>)
        requires
            old(self).shaped(),
            p < triangular(old(self).blocks@.len()),
        ensures
            final(self).shaped(),
            final(self).sz == old(self).sz,
            final(self).blocks@.len() == old(self).blocks@.len(),
            previous == flat(old(self).blocks@)[p as int],
            flat(final(self).blocks@) == flat(old(self).blocks@).update(p as int, v),
    {
        let b = Self::index_to_block(p);
        proof {
            lemma_locate(p as nat, self.blocks@.len());
        }
        let j = p - block_start(b);
        let mut block = self.blocks.set(b, Vec::new()).unwrap();
        let previous = block[j].take();
        block[j] = v;
        self.blocks.set(b, block);
        proof {
            assert forall|q: int| 0 <= q < triangular(old(self).blocks@.len()) implies flat(
                self.blocks@,
            )[q] == flat(old(self).blocks@).update(p as int, v)[q] by {
                lemma_locate(q as nat, old(self).blocks@.len());
            }
            assert(flat(self.blocks@) =~= flat(old(self).blocks@).update(p as int, v));
        }
        previous
    }

    /// Appends an empty block, one slot longer than the last.
    fn grow(&mut self)
        requires
            old(self).shaped(),
            old(self).blocks@.len() < usize::MAX / 2,
        ensures
            final(self).shaped(),
            final(self).sz == old(self).sz,
            final(self).blocks@.len() == old(self).blocks@.len() + 1,
            flat(final(self).blocks@) == flat(old(self).blocks@) + Seq::new(
                old(self).blocks@.len() + 1,
                |q: int| None::<T>,
            ),
    {
        let r = self.blocks.size();
        let block = ArrayStack::<T>::allocate_in_heap(r + 1);
        self.blocks.add(r, block);
        proof {
            let extended = flat(old(self).blocks@) + Seq::new((r + 1) as nat, |q: int| None::<T>);
            lemma_triangular_step(r as nat);
            assert forall|q: int| 0 <= q < triangular((r + 1) as nat) implies flat(self.blocks@)[q]
                == extended[q] by {
                lemma_locate(q as nat, (r + 1) as nat);
                let b = block_of(q as nat);
                lemma_block_of(q as nat, b);
                if q < triangular(r as nat) {
                    lemma_locate(q as nat, r as nat);
                } else if b < r {
                    lemma_triangular_monotonic(b + 1, r as nat);
                }
            }
            assert(flat(self.blocks@) =~= extended);
        }
    }

    /// Drops the last block as long as the blocks before the last two
    /// hold all the elements.
    fn shrink(&mut self)
        requires
            old(self).shaped(),
        ensures
            final(self).shaped(),
            final(self).sz == old(self).sz,
            final(self).blocks@.len() == kept_blocks(old(self).blocks@.len(), old(self).sz as nat),
            final(self).blocks@.len() <= old(self).blocks@.len(),
            flat(final(self).blocks@) == flat(old(self).blocks@).subrange(
                0,
                triangular(final(self).blocks@.len()) as int,
            ),
    {
        let mut r = self.blocks.size();
        assert(flat(self.blocks@) =~= flat(old(self).blocks@).subrange(
            0,
            triangular(r as nat) as int,
        ));
        while is_spare(r, self.sz)
            invariant
                self.shaped(),
                self.sz == old(self).sz,
                r == self.blocks@.len(),
                r <= old(self).blocks@.len(),
                kept_blocks(r as nat, self.sz as nat) == kept_blocks(
                    old(self).blocks@.len(),
                    old(self).sz as nat,
                ),
                triangular(r as nat) <= triangular(old(self).blocks@.len()),
                flat(self.blocks@) == flat(old(self).blocks@).subrange(
                    0,
                    triangular(r as nat) as int,
                ),
            decreases r,
        {
            let ghost before = self.blocks@;
            self.blocks.remove(r - 1);
            r -= 1;
            proof {
                lemma_triangular_monotonic(r as nat, (r + 1) as nat);
                assert forall|q: int| 0 <= q < triangular(r as nat) implies flat(self.blocks@)[q]
                    == flat(before)[q] by {
                    lemma_locate(q as nat, r as nat);
                }
                assert(flat(self.blocks@) =~= flat(old(self).blocks@).subrange(
                    0,
                    triangular(r as nat) as int,
                ));
            }
        }
    }

    /// The block that holds position `i`.
    fn index_to_block(i: usize) -> (b: usize)
        ensures
            b == block_of(i as nat),
            in_block(i as nat, b as nat),
    {
        let mut lo: usize = 0;
        let mut hi: usize = i;
        proof {
            assert(i < triangular((i + 1) as nat)) by (nonlinear_arith);
        }
        while lo < hi
            invariant
                lo <= hi <= i,
                triangular(lo as nat) <= i < triangular((hi + 1) as nat),
            decreases hi - lo,
        {
            let mid = lo + (hi - lo) / 2 + 1;
            if slots_in(mid) <= i as u128 {
                lo = mid;
            } else {
                hi = mid - 1;
            }
        }
        proof {
            lemma_block_of(i as nat, lo as nat);
        }
        lo
    }
}

impl<T: Clone> List<T> for Array<T> {
    open spec fn wf(&self) -> bool {
        Array::<T>::wf(self)
    }

    fn size(&self) -> (n: usize) {
        self.sz
    }

    fn get(&self, i: usize) -> (r: Option<T>) {
        if i >= self.sz {
            return None;
        }
        let b = Self::index_to_block(i);
        proof {
            lemma_locate(i as nat, self.blocks@.len());
        }
        let j = i - block_start(b);
        assert(flat(self.blocks@)[i as int] == self.blocks@[b as int]@[j as int]);
        match self.blocks.get_ref(b) {
            Some(block) => block[j].clone(),
            None => None,
        }
    }

    fn set(&mut self, i: usize, e: T) -> (r: Option<T>)
        ensures
            final(self).block_count() == old(self).block_count(),
            i >= old(self)@.len() ==> *final(self) == *old(self),
    {
        if i >= self.sz {
            return None;
        }
        let previous = self.replace_slot(i, Some(e));
        assert(self@ =~= old(self)@.update(i as int, e));
        previous
    }

    fn add(&mut self, i: usize, e: T)
        ensures
            final(self).block_count() == grown_blocks(
                old(self).block_count() as nat,
                old(self)@.len(),
            ),
    {
        let r = self.blocks.size();
        proof {
            lemma_spare(r as nat, self.sz as nat);
            lemma_spare((r + 1) as nat, (self.sz + 1) as nat);
            lemma_spare(r as nat, (self.sz + 1) as nat);
            lemma_triangular_zero();
            lemma_triangular_monotonic(if r > 2 { (r - 2) as nat } else { 0 }, r as nat);
            lemma_triangular_monotonic(if r > 1 { (r - 1) as nat } else { 0 }, r as nat);
            lemma_triangular_step(r as nat);
            assert(r <= triangular(r as nat)) by (nonlinear_arith);
        }
        if slots_in(r) < self.sz as u128 + 1 {
            self.grow();
        }
        let ghost blocks = self.blocks@.len();
        let mut k: usize = self.sz;
        while k > i
            invariant
                i <= k <= self.sz,
                self.sz == old(self).sz,
                self.shaped(),
                self.blocks@.len() == blocks,
                self.sz < triangular(blocks),
                forall|q: int|
                    0 <= q < k ==> (#[trigger] flat(self.blocks@)[q]) == Some(old(self)@[q]),
                forall|q: int|
                    k < q <= self.sz ==> (#[trigger] flat(self.blocks@)[q]) == Some(
                        old(self)@[q - 1],
                    ),
                forall|q: int|
                    self.sz < q < triangular(blocks) ==> (#[trigger] flat(self.blocks@)[q]) is None,
                flat(self.blocks@)[k as int] is None,
            decreases k,
        {
            let moved = self.replace_slot(k - 1, None);
            self.replace_slot(k, moved);
            k -= 1;
        }
        self.replace_slot(i, Some(e));
        self.sz += 1;
        assert(self@ =~= old(self)@.insert(i as int, e));
    }

    fn remove(&mut self, i: usize) -> (r: Option<T>)
        ensures
            i < old(self)@.len() ==> final(self).block_count() == kept_blocks(
                old(self).block_count() as nat,
                final(self)@.len(),
            ),
            i >= old(self)@.len() ==> *final(self) == *old(self),
    {
        if i >= self.sz {
            return None;
        }
        let ghost blocks = self.blocks@.len();
        let removed = self.replace_slot(i, None);
        let mut k: usize = i;
        while k + 1 < self.sz
            invariant
                i <= k < self.sz,
                self.sz == old(self).sz,
                self.shaped(),
                self.blocks@.len() == blocks,
                self.sz <= triangular(blocks),
                forall|q: int|
                    0 <= q < i ==> (#[trigger] flat(self.blocks@)[q]) == Some(old(self)@[q]),
                forall|q: int|
                    i <= q < k ==> (#[trigger] flat(self.blocks@)[q]) == Some(old(self)@[q + 1]),
                forall|q: int|
                    k < q < self.sz ==> (#[trigger] flat(self.blocks@)[q]) == Some(old(self)@[q]),
                forall|q: int|
                    self.sz <= q < triangular(blocks) ==> (#[trigger] flat(
                        self.blocks@,
                    )[q]) is None,
                flat(self.blocks@)[k as int] is None,
            decreases self.sz - k,
        {
            let moved = self.replace_slot(k + 1, None);
            self.replace_slot(k, moved);
            k += 1;
        }
        self.sz -= 1;
        let ghost shifted = flat(self.blocks@);
        self.shrink();
        proof {
            lemma_kept_blocks(blocks, self.sz as nat);
            lemma_triangular_monotonic(self.blocks@.len(), blocks);
            old(self).blocks.lemma_size_within_length();
            self.blocks.lemma_size_within_length();
        }
        assert(self@ =~= old(self)@.remove(i as int));
        removed
    }
}

} // verus!
