//! A doubly linked list between two sentinels, which reaches an index from
//! the nearer end.
//!
//! The nodes stand in one vector and link to each other by index. A node
//! that leaves the list joins a chain of free nodes and is the first to be
//! used again.

use vstd::prelude::*;
use crate::interface::List;

verus! {

/// The index of the sentinel before the first element.
const HEAD: usize = 0;

/// The index of the sentinel after the last element.
const TAIL: usize = 1;

/// A node: an element and the indices of the nodes after and before it.
#[derive(Clone, Debug, Default)]
pub struct Node<T> {
    e: T,
    next: usize,
    prev: usize,
}

/// A doubly linked list.
#[derive(Clone, Debug)]
pub struct DLList<T: Clone + Default> {
    nodes: Vec<Node<T>>,
    free: Option<usize>,
    sz: usize,
}

/// The node at position `k` of `order`; the head sentinel stands before the
/// first position and the tail sentinel after the last.
spec fn at(order: Seq<usize>, k: int) -> usize {
    if k < 0 {
        HEAD
    } else if k >= order.len() {
        TAIL
    } else {
        order[k]
    }
}

impl<T> Node<T> {
    /// A node for `e` between the nodes at `prev` and `next`.
    fn new(e: T, next: usize, prev: usize) -> (node: Self)
        ensures
            node == (Node { e, next, prev }),
    {
        Self { e, next, prev }
    }
}

impl<T: Clone + Default> View for DLList<T> {
    type V = Seq<T>;

    closed spec fn view(&self) -> Seq<T> {
        Seq::new(self.sz as nat, |k: int| self.nodes@[self.order()[k] as int].e)
    }
}

impl<T: Clone + Default> DLList<T> {
    /// Whether the node at position `k` links forward to the node at the
    /// next position, and that one back to it.
    spec fn joined(&self, order: Seq<usize>, k: int) -> bool {
        &&& self.nodes@[at(order, k) as int].next == at(order, k + 1)
        &&& self.nodes@[at(order, k + 1) as int].prev == at(order, k)
    }

    /// Whether the free node at position `k` of `spare` is no sentinel and
    /// links to the free node at the next position, or to the head sentinel
    /// at the end.
    spec fn free_at(&self, spare: Seq<usize>, k: int) -> bool {
        &&& 2 <= spare[k] < self.nodes@.len()
        &&& self.nodes@[spare[k] as int].next == (if k + 1 < spare.len() {
            spare[k + 1]
        } else {
            HEAD
        })
    }

    /// Whether `order` holds the nodes of the list, first to last, and
    /// `spare` the free nodes: each node but the sentinels is in one of the
    /// two, once.
    spec fn linked(&self, order: Seq<usize>, spare: Seq<usize>) -> bool {
        &&& order.len() == self.sz
        &&& self.nodes@.len() == 2 + order.len() + spare.len()
        &&& forall|k: int| 0 <= k < order.len() ==> 2 <= (#[trigger] order[k]) < self.nodes@.len()
        &&& forall|k: int| -1 <= k < order.len() ==> #[trigger] self.joined(order, k)
        &&& self.free == (if spare.len() == 0 {
            None
        } else {
            Some(spare[0])
        })
        &&& forall|k: int| 0 <= k < spare.len() ==> #[trigger] self.free_at(spare, k)
        &&& forall|j: int, k: int|
            0 <= j < k < order.len() ==> (#[trigger] order[j]) != (#[trigger] order[k])
        &&& forall|j: int, k: int|
            0 <= j < k < spare.len() ==> (#[trigger] spare[j]) != (#[trigger] spare[k])
        &&& forall|j: int, k: int|
            0 <= j < order.len() && 0 <= k < spare.len() ==> (#[trigger] order[j])
                != (#[trigger] spare[k])
    }

    /// Whether the pair holds the nodes of the list and the free nodes.
    spec fn chained(&self, chains: (Seq<usize>, Seq<usize>)) -> bool {
        self.linked(chains.0, chains.1)
    }

    /// The links lead from the head sentinel through the nodes of the list
    /// to the tail sentinel and back, and from the first free node through
    /// all the others.
    pub closed spec fn wf(&self) -> bool {
        exists|chains: (Seq<usize>, Seq<usize>)| self.chained(chains)
    }

    /// The nodes of the list, first to last.
    spec fn order(&self) -> Seq<usize> {
        (choose|chains: (Seq<usize>, Seq<usize>)| self.chained(chains)).0
    }

    /// The free nodes, in the order in which they will be used.
    spec fn spare(&self) -> Seq<usize> {
        (choose|chains: (Seq<usize>, Seq<usize>)| self.chained(chains)).1
    }

    /// The links leave no choice of the node at a position.
    proof fn lemma_same_node(
        &self,
        o1: Seq<usize>,
        s1: Seq<usize>,
        o2: Seq<usize>,
        s2: Seq<usize>,
        k: int,
    )
        requires
            self.linked(o1, s1),
            self.linked(o2, s2),
            -1 <= k < self.sz,
        ensures
            at(o1, k) == at(o2, k),
        decreases k + 1,
    {
        if k >= 0 {
            self.lemma_same_node(o1, s1, o2, s2, k - 1);
            assert(self.joined(o1, k - 1));
            assert(self.joined(o2, k - 1));
        }
    }

    /// The nodes of the list are those that any walk along the links
    /// finds.
    proof fn lemma_order(&self, order: Seq<usize>, spare: Seq<usize>)
        requires
            self.linked(order, spare),
        ensures
            self.wf(),
            self.order() == order,
    {
        assert(self.chained((order, spare)));
        let chosen = self.order();
        let rest = self.spare();
        assert forall|k: int| 0 <= k < order.len() implies chosen[k] == order[k] by {
            self.lemma_same_node(chosen, rest, order, spare, k);
        }
    }

    /// Takes a node for `e` between `prev` and `next`, the first free one
    /// if there is any.
    fn take_node(&mut self, e: T, next: usize, prev: usize) -> (slot: usize)
        requires
            old(self).wf(),
        ensures
            final(self).sz == old(self).sz,
            final(self).nodes@[slot as int] == (Node { e, next, prev }),
            old(self).spare().len() > 0 ==> {
                &&& slot == old(self).spare()[0]
                &&& final(self).nodes@ == old(self).nodes@.update(
                    slot as int,
                    Node { e, next, prev },
                )
                &&& final(self).free == (if old(self).spare().len() > 1 {
                    Some(old(self).spare()[1])
                } else {
                    None
                })
            },
            old(self).spare().len() == 0 ==> {
                &&& slot == old(self).nodes@.len()
                &&& final(self).nodes@ == old(self).nodes@.push(Node { e, next, prev })
                &&& final(self).free is None
            },
    {
        proof {
            if self.spare().len() > 0 {
                assert(self.free_at(self.spare(), 0));
            }
        }
        match self.free {
            Some(slot) => {
                let following = self.nodes[slot].next;
                proof {
                    if self.spare().len() > 1 {
                        assert(self.free_at(self.spare(), 1));
                    }
                }
                self.free = if following == HEAD {
                    None
                } else {
                    Some(following)
                };
                self.nodes[slot] = Node::new(e, next, prev);
                slot
            },
            None => {
                self.nodes.push(Node::new(e, next, prev));
                self.nodes.len() - 1
            },
        }
    }

    /// An empty list.
    pub fn new() -> (r: Self)
        ensures
            r.wf(),
            r@ == Seq::<T>::empty(),
    {
        let mut nodes: Vec<Node<T>> = Vec::new();
        nodes.push(Node::new(T::default(), TAIL, HEAD));
        nodes.push(Node::new(T::default(), TAIL, HEAD));
        let r = Self { nodes, free: None, sz: 0 };
        proof {
            r.lemma_order(Seq::empty(), Seq::empty());
        }
        r
    }

    /// The node at index `i`, reached from the nearer end; the tail
    /// sentinel where `i` is the size.
    fn get_link(&self, i: usize) -> (p: usize)
        requires
            self.wf(),
            i <= self@.len(),
        ensures
            p == at(self.order(), i as int),
            p < self.nodes@.len(),
            i < self@.len() ==> p >= 2,
    {
        let ghost order = self.order();
        let ghost spare = self.spare();
        if i < self.sz / 2 {
            proof {
                assert(self.joined(order, -1));
            }
            let mut p = self.nodes[HEAD].next;
            let mut j: usize = 0;
            while j < i
                invariant
                    j <= i < self.sz,
                    self.linked(order, spare),
                    p == at(order, j as int),
                decreases i - j,
            {
                proof {
                    assert(self.joined(order, j as int));
                }
                p = self.nodes[p].next;
                j += 1;
            }
            p
        } else {
            let mut p = TAIL;
            let mut j: usize = self.sz;
            while j > i
                invariant
                    i <= j <= self.sz,
                    self.linked(order, spare),
                    p == at(order, j as int),
                decreases j,
            {
                proof {
                    assert(self.joined(order, j - 1));
                }
                p = self.nodes[p].prev;
                j -= 1;
            }
            p
        }
    }
}

impl<T: Clone + Default> DLList<T> {
    /// Links a node for `e` in before the node `w`, which stands at index
    /// `i` (the tail sentinel where `i` is the size).
    fn add_before(&mut self, w: usize, e: T, Ghost(i): Ghost<int>)
        requires
            old(self).wf(),
            0 <= i <= old(self)@.len(),
            w == at(old(self).order(), i),
        ensures
            final(self).wf(),
            final(self)@ == old(self)@.insert(i, e),
    {
        let ghost order = self.order();
        let ghost spare = self.spare();
        proof {
            assert(self.joined(order, i - 1));
            if spare.len() > 0 {
                assert(self.free_at(spare, 0));
            }
        }
        let prev = self.nodes[w].prev;
        let u = self.take_node(e, w, prev);
        self.nodes[w].prev = u;
        self.nodes[prev].next = u;
        assert(self.sz < self.nodes.len());
        self.sz += 1;
        proof {
            let longer = order.insert(i, u);
            let rest = if spare.len() > 0 { spare.drop_first() } else { spare };
            assert forall|k: int| -1 <= k < longer.len() implies #[trigger] self.joined(
                longer,
                k,
            ) by {
                if k < i - 1 {
                    assert(old(self).joined(order, k));
                } else if k > i {
                    assert(old(self).joined(order, k - 1));
                }
            }
            assert forall|k: int| 0 <= k < rest.len() implies #[trigger] self.free_at(rest, k) by {
                assert(old(self).free_at(spare, k + 1));
            }
            assert(self.linked(longer, rest));
            self.lemma_order(longer, rest);
        }
    }

    /// Links the node `w`, which stands at index `i`, out of the list,
    /// sets it free and returns its element.
    fn remove_link(&mut self, w: usize, Ghost(i): Ghost<int>) -> (e: T)
        requires
            old(self).wf(),
            0 <= i < old(self)@.len(),
            w == old(self).order()[i],
        ensures
            final(self).wf(),
            final(self)@ == old(self)@.remove(i),
            e == old(self)@[i],
    {
        let ghost order = self.order();
        let ghost spare = self.spare();
        proof {
            assert(self.joined(order, i - 1));
            assert(self.joined(order, i));
        }
        let prev = self.nodes[w].prev;
        let next = self.nodes[w].next;
        self.nodes[prev].next = next;
        self.nodes[next].prev = prev;
        let mut e = T::default();
        std::mem::swap(&mut self.nodes[w].e, &mut e);
        self.nodes[w].next = match self.free {
            Some(following) => following,
            None => HEAD,
        };
        self.free = Some(w);
        self.sz -= 1;
        proof {
            let shorter = order.remove(i);
            let rest = seq![w] + spare;
            assert forall|k: int| -1 <= k < shorter.len() implies #[trigger] self.joined(
                shorter,
                k,
            ) by {
                if k < i - 1 {
                    assert(old(self).joined(order, k));
                } else if k >= i {
                    assert(old(self).joined(order, k + 1));
                }
            }
            assert forall|k: int| 0 <= k < rest.len() implies #[trigger] self.free_at(rest, k) by {
                if k > 0 {
                    assert(old(self).free_at(spare, k - 1));
                }
            }
            assert(self.linked(shorter, rest));
            self.lemma_order(shorter, rest);
        }
        e
    }
}

impl<T: Clone + Default> Default for DLList<T> {
    /// An empty list.
    fn default() -> (r: Self)
        ensures
            r.wf(),
            r@ == Seq::<T>::empty(),
    {
        Self::new()
    }
}

impl<T: Clone + Default> List<T> for DLList<T> {
    open spec fn wf(&self) -> bool {
        DLList::<T>::wf(self)
    }

    fn size(&self) -> (n: usize) {
        self.sz
    }

    fn get(&self, i: usize) -> (r: Option<T>) {
        if i >= self.sz {
            return None;
        }
        let w = self.get_link(i);
        Some(self.nodes[w].e.clone())
    }

    fn set(&mut self, i: usize, e: T) -> (r: Option<T>)
        ensures
            i >= old(self)@.len() ==> *final(self) == *old(self),
    {
        if i >= self.sz {
            return None;
        }
        let ghost order = self.order();
        let ghost spare = self.spare();
        let w = self.get_link(i);
        let mut held = e;
        std::mem::swap(&mut self.nodes[w].e, &mut held);
        proof {
            assert(old(self).chained((order, spare)));
            assert forall|k: int| -1 <= k < order.len() implies #[trigger] self.joined(
                order,
                k,
            ) by {
                assert(old(self).joined(order, k));
            }
            assert forall|k: int| 0 <= k < spare.len() implies #[trigger] self.free_at(
                spare,
                k,
            ) by {
                assert(old(self).free_at(spare, k));
            }
            self.lemma_order(order, spare);
            assert forall|k: int| 0 <= k < order.len() && k != i implies self@[k] == old(
                self,
            )@[k] by {
                assert(order[k] == at(order, k));
            }
        }
        Some(held)
    }

    fn add(&mut self, i: usize, e: T) {
        let w = self.get_link(i);
        self.add_before(w, e, Ghost(i as int));
    }

    fn remove(&mut self, i: usize) -> (r: Option<T>)
        ensures
            i >= old(self)@.len() ==> *final(self) == *old(self),
    {
        if i >= self.sz {
            return None;
        }
        let w = self.get_link(i);
        Some(self.remove_link(w, Ghost(i as int)))
    }
}

} // verus!
