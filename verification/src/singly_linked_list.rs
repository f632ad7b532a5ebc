//! A singly linked list with a link to its last node: a stack at its head
//! and a queue from its tail to its head.
//!
//! The nodes stand in one vector and link to each other by index. A node
//! that leaves the list joins a chain of free nodes and is the first to be
//! used again.

use vstd::prelude::*;
use crate::interface::{Queue, Stack};

verus! {

/// A node: an element, where the node is in use, and the index of the node
/// that follows.
#[derive(Clone, Debug)]
struct Node<T> {
    x: Option<T>,
    next: Option<usize>,
}

/// A singly linked list.
#[derive(Clone, Debug)]
pub struct SLList<T> {
    nodes: Vec<Node<T>>,
    head: Option<usize>,
    tail: Option<usize>,
    free: Option<usize>,
    n: usize,
}

/// The singly linked list by its full name.
pub type SinglyLinkedList<T> = SLList<T>;

impl<T> View for SLList<T> {
    type V = Seq<T>;

    closed spec fn view(&self) -> Seq<T> {
        Seq::new(self.n as nat, |k: int| self.nodes@[self.order()[k] as int].x->0)
    }
}

impl<T> SLList<T> {
    /// Whether the node at position `k` of `chain` is there and links to
    /// the node at the next position, or to none at the end.
    spec fn link_at(&self, chain: Seq<usize>, k: int) -> bool {
        &&& chain[k] < self.nodes@.len()
        &&& self.nodes@[chain[k] as int].next == (if k + 1 < chain.len() {
            Some(chain[k + 1])
        } else {
            None
        })
    }

    /// Whether `chain` holds the nodes that are reached from `first`, in
    /// the order in which the links lead through them.
    spec fn follows(&self, chain: Seq<usize>, first: Option<usize>) -> bool {
        &&& first == (if chain.len() == 0 {
            None
        } else {
            Some(chain[0])
        })
        &&& forall|k: int| 0 <= k < chain.len() ==> #[trigger] self.link_at(chain, k)
    }

    /// Whether `order` holds the nodes of the list, head to tail, and
    /// `spare` the free nodes: each node is in one of the two, once.
    spec fn linked(&self, order: Seq<usize>, spare: Seq<usize>) -> bool {
        &&& order.len() == self.n
        &&& order.len() + spare.len() == self.nodes@.len()
        &&& self.follows(order, self.head)
        &&& self.follows(spare, self.free)
        &&& self.tail == (if order.len() == 0 {
            None
        } else {
            Some(order.last())
        })
        &&& forall|j: int, k: int|
            0 <= j < k < order.len() ==> (#[trigger] order[j]) != (#[trigger] order[k])
        &&& forall|j: int, k: int|
            0 <= j < k < spare.len() ==> (#[trigger] spare[j]) != (#[trigger] spare[k])
        &&& forall|j: int, k: int|
            0 <= j < order.len() && 0 <= k < spare.len() ==> (#[trigger] order[j])
                != (#[trigger] spare[k])
        &&& forall|k: int|
            0 <= k < order.len() ==> self.nodes@[(#[trigger] order[k]) as int].x is Some
    }

    /// Whether the pair holds the nodes of the list and the free nodes.
    spec fn chained(&self, chains: (Seq<usize>, Seq<usize>)) -> bool {
        self.linked(chains.0, chains.1)
    }

    /// The links lead from the head through the nodes of the list to the
    /// tail, and from the first free node through all the others.
    pub closed spec fn wf(&self) -> bool {
        exists|chains: (Seq<usize>, Seq<usize>)| self.chained(chains)
    }

    /// The nodes of the list, head to tail.
    spec fn order(&self) -> Seq<usize> {
        (choose|chains: (Seq<usize>, Seq<usize>)| self.chained(chains)).0
    }

    /// The free nodes, in the order in which they will be used.
    spec fn spare(&self) -> Seq<usize> {
        (choose|chains: (Seq<usize>, Seq<usize>)| self.chained(chains)).1
    }

    /// The links leave no choice of the node at a position.
    proof fn lemma_same_node(
        &self,
        o1: Seq<usize>,
        s1: Seq<usize>,
        o2: Seq<usize>,
        s2: Seq<usize>,
        k: int,
    )
        requires
            self.linked(o1, s1),
            self.linked(o2, s2),
            0 <= k < self.n,
        ensures
            o1[k] == o2[k],
        decreases k,
    {
        if k > 0 {
            self.lemma_same_node(o1, s1, o2, s2, k - 1);
            assert(self.link_at(o1, k - 1));
            assert(self.link_at(o2, k - 1));
        }
    }

    /// The node that is taken next, the first free one or a new one, is
    /// no node of the list and none of the other free nodes.
    proof fn lemma_not_taken(&self, order: Seq<usize>, spare: Seq<usize>, slot: usize)
        requires
            self.linked(order, spare),
            slot == (if spare.len() > 0 {
                spare[0]
            } else {
                self.nodes@.len() as usize
            }),
        ensures
            forall|k: int| 0 <= k < order.len() ==> (#[trigger] order[k]) != slot,
            forall|k: int| 1 <= k < spare.len() ==> (#[trigger] spare[k]) != slot,
            forall|k: int| 0 <= k < order.len() ==> (#[trigger] order[k]) < self.nodes@.len(),
            forall|k: int| 0 <= k < spare.len() ==> (#[trigger] spare[k]) < self.nodes@.len(),
    {
        assert forall|k: int| 0 <= k < order.len() implies (#[trigger] order[k]) != slot && order[k]
            < self.nodes@.len() by {
            assert(self.link_at(order, k));
        }
        assert forall|k: int| 0 <= k < spare.len() implies (#[trigger] spare[k])
            < self.nodes@.len() && (k >= 1 ==> spare[k] != slot) by {
            assert(self.link_at(spare, k));
        }
    }

    /// The nodes of the list are those that any walk along the links
    /// finds.
    proof fn lemma_order(&self, order: Seq<usize>, spare: Seq<usize>)
        requires
            self.linked(order, spare),
        ensures
            self.wf(),
            self.order() == order,
    {
        assert(self.chained((order, spare)));
        let chosen = self.order();
        let rest = self.spare();
        assert forall|k: int| 0 <= k < order.len() implies chosen[k] == order[k] by {
            self.lemma_same_node(chosen, rest, order, spare, k);
        }
    }
}

impl<T> SLList<T> {
    /// An empty list.
    pub fn new() -> (r: Self)
        ensures
            r.wf(),
            r@ == Seq::<T>::empty(),
    {
        let r = Self { nodes: Vec::new(), head: None, tail: None, free: None, n: 0 };
        proof {
            r.lemma_order(Seq::empty(), Seq::empty());
        }
        r
    }

    /// The number of elements.
    pub fn size(&self) -> (n: usize)
        requires
            self.wf(),
        ensures
            n == self@.len(),
    {
        self.n
    }

    /// Takes a node for `x`, the first free one if there is any, and lets
    /// it link to `next`.
    fn take_node(&mut self, x: T, next: Option<usize>) -> (slot: usize)
        requires
            old(self).wf(),
        ensures
            final(self).head == old(self).head,
            final(self).tail == old(self).tail,
            final(self).n == old(self).n,
            final(self).nodes@[slot as int] == (Node { x: Some(x), next }),
            old(self).spare().len() > 0 ==> {
                &&& slot == old(self).spare()[0]
                &&& final(self).nodes@ == old(self).nodes@.update(
                    slot as int,
                    Node { x: Some(x), next },
                )
                &&& final(self).free == old(self).nodes@[slot as int].next
            },
            old(self).spare().len() == 0 ==> {
                &&& slot == old(self).nodes@.len()
                &&& final(self).nodes@ == old(self).nodes@.push(Node { x: Some(x), next })
                &&& final(self).free is None
            },
    {
        proof {
            if self.spare().len() > 0 {
                assert(self.link_at(self.spare(), 0));
            }
        }
        match self.free {
            Some(slot) => {
                self.free = self.nodes[slot].next;
                self.nodes[slot] = Node { x: Some(x), next };
                slot
            },
            None => {
                self.nodes.push(Node { x: Some(x), next });
                self.nodes.len() - 1
            },
        }
    }

    /// Takes the element at the head out of the list, if there is one, and
    /// sets its node free.
    fn unlink_head(&mut self) -> (r: Option<T>)
        requires
            old(self).wf(),
        ensures
            final(self).wf(),
            old(self)@.len() == 0 ==> r is None && final(self)@ == old(self)@,
            old(self)@.len() > 0 ==> r == Some(old(self)@[0]) && final(self)@
                == old(self)@.drop_first(),
    {
        let ghost order = self.order();
        let ghost spare = self.spare();
        match self.head {
            None => None,
            Some(h) => {
                proof {
                    assert(self.link_at(order, 0));
                }
                let x = self.nodes[h].x.take();
                let next = self.nodes[h].next;
                self.head = next;
                if next.is_none() {
                    self.tail = None;
                }
                self.nodes[h].next = self.free;
                self.free = Some(h);
                self.n -= 1;
                proof {
                    let rest = order.drop_first();
                    let freed = seq![h] + spare;
                    assert forall|k: int| 0 <= k < rest.len() implies #[trigger] self.link_at(
                        rest,
                        k,
                    ) by {
                        assert(old(self).link_at(order, k + 1));
                    }
                    assert forall|k: int| 0 <= k < freed.len() implies #[trigger] self.link_at(
                        freed,
                        k,
                    ) by {
                        if k > 0 {
                            assert(old(self).link_at(spare, k - 1));
                        }
                    }
                    assert forall|k: int| 0 <= k < rest.len() implies self.nodes@[(
                    #[trigger] rest[k]) as int].x is Some by {
                        assert(old(self).link_at(order, k + 1));
                    }
                    self.lemma_order(rest, freed);
                    assert forall|k: int| 0 <= k < rest.len() implies self@[k] == old(self)@[k
                        + 1] by {
                        assert(old(self).link_at(order, k + 1));
                    }
                }
                x
            },
        }
    }
}

impl<T> Default for SLList<T> {
    /// An empty list.
    fn default() -> (r: Self)
        ensures
            r.wf(),
            r@ == Seq::<T>::empty(),
    {
        Self::new()
    }
}

impl<T> Stack<T> for SLList<T> {
    open spec fn wf(&self) -> bool {
        SLList::<T>::wf(self)
    }

    fn push(&mut self, x: T) {
        let ghost order = self.order();
        let ghost spare = self.spare();
        let slot = self.take_node(x, self.head);
        proof {
            old(self).lemma_not_taken(order, spare, slot);
            if spare.len() > 0 {
                assert(old(self).link_at(spare, 0));
            }
        }
        if self.head.is_none() {
            self.tail = Some(slot);
        }
        self.head = Some(slot);
        assert(self.n < self.nodes.len());
        self.n += 1;
        proof {
            let longer = seq![slot] + order;
            let rest = if spare.len() > 0 { spare.drop_first() } else { spare };
            assert forall|k: int| 0 <= k < longer.len() implies #[trigger] self.link_at(
                longer,
                k,
            ) by {
                if k > 0 {
                    assert(old(self).link_at(order, k - 1));
                }
            }
            assert forall|k: int| 0 <= k < rest.len() implies #[trigger] self.link_at(rest, k) by {
                assert(old(self).link_at(spare, k + 1));
            }
            self.lemma_order(longer, rest);
        }
    }

    fn pop(&mut self) -> (r: Option<T>) {
        self.unlink_head()
    }
}

impl<T> Queue<T> for SLList<T> {
    open spec fn wf(&self) -> bool {
        SLList::<T>::wf(self)
    }

    fn add(&mut self, e: T) {
        let ghost order = self.order();
        let ghost spare = self.spare();
        let slot = self.take_node(e, None);
        proof {
            old(self).lemma_not_taken(order, spare, slot);
            if spare.len() > 0 {
                assert(old(self).link_at(spare, 0));
            }
        }
        match self.tail {
            Some(last) => {
                self.nodes[last].next = Some(slot);
            },
            None => {
                self.head = Some(slot);
            },
        }
        self.tail = Some(slot);
        assert(self.n < self.nodes.len());
        self.n += 1;
        proof {
            let longer = order.push(slot);
            let rest = if spare.len() > 0 { spare.drop_first() } else { spare };
            assert forall|k: int| 0 <= k < longer.len() implies #[trigger] self.link_at(
                longer,
                k,
            ) by {
                if k < order.len() {
                    assert(old(self).link_at(order, k));
                }
            }
            assert forall|k: int| 0 <= k < rest.len() implies #[trigger] self.link_at(rest, k) by {
                assert(old(self).link_at(spare, k + 1));
            }
            self.lemma_order(longer, rest);
        }
    }

    fn remove(&mut self) -> (r: Option<T>) {
        self.unlink_head()
    }
}

} // verus!
