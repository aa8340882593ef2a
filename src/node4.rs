use vstd::array::spec_array_update;
use vstd::prelude::*;

use crate::node::empty_children;
use crate::util::swap_unchecked;
use crate::describe::{Describe, Describer};
use crate::{Node, Node16, Seek};

verus! {

broadcast use vstd::array::group_array_axioms;

/// The smallest inner node: up to four children in parallel arrays, kept in
/// insertion order and found by a linear scan.
#[derive(Debug)]
pub struct Node4<V> {
    pub key: [u8; 4],
    pub children: [Node<V>; 4],
    pub count: u8,
}

impl<V> Node4<V> {
    pub open spec fn has(&self, b: u8) -> bool {
        exists|i: int| 0 <= i < self.count && #[trigger] self.key@[i] == b
    }

    pub open spec fn index_of(&self, b: u8) -> int {
        choose|i: int| 0 <= i < self.count && #[trigger] self.key@[i] == b
    }

    pub open spec fn slot(&self, b: u8) -> Option<Node<V>> {
        if self.has(b) {
            Some(self.children@[self.index_of(b)])
        } else {
            None
        }
    }

    /// At most one child per byte; slots past `count` hold empty nodes.
    pub open spec fn wf(&self) -> bool {
        &&& self.count <= 4
        &&& forall|i: int, j: int|
            0 <= i < j < self.count ==> #[trigger] self.key@[i] != #[trigger] self.key@[j]
        &&& forall|i: int| self.count <= i < 4 ==> (#[trigger] self.children@[i]) is Empty
    }

    proof fn lemma_slot_at(&self, i: int)
        requires
            self.wf(),
            0 <= i < self.count,
        ensures
            self.has(self.key@[i]),
            self.index_of(self.key@[i]) == i,
            self.slot(self.key@[i]) == Some(self.children@[i]),
    {
        let b = self.key@[i];
        assert(self.has(b));
        let j = self.index_of(b);
        if j != i {
            if j < i {
                assert(self.key@[j] != self.key@[i]);
            } else {
                assert(self.key@[i] != self.key@[j]);
            }
        }
    }

    pub fn new() -> (r: Node4<V>)
        ensures
            r.wf(),
            r.count == 0,
            forall|b: u8| r.slot(b) is None,
    {
        Node4 { key: [0u8; 4], children: empty_children(), count: 0 }
    }

    pub fn is_full(&self) -> (r: bool)
        ensures
            r == (self.count == 4),
    {
        self.count == 4
    }

    fn index_of_byte(&self, byte: u8) -> (r: Option<usize>)
        requires
            self.wf(),
        ensures
            r is Some <==> self.has(byte),
            r is Some ==> r->Some_0 == self.index_of(byte),
    {
        let mut i: usize = 0;
        while i < self.count as usize
            invariant
                self.wf(),
                i <= self.count,
                forall|j: int| 0 <= j < i ==> self.key@[j] != byte,
            decreases self.count - i,
        {
            if self.key[i] == byte {
                proof {
                    self.lemma_slot_at(i as int);
                }
                return Some(i);
            }
            i += 1;
        }
        None
    }

    pub fn find_child(&self, seek: Seek<'_>) -> (r: Option<&Node<V>>)
        requires
            self.wf(),
        ensures
            r is Some <==> self.slot(seek.byte) is Some,
            r is Some ==> *r->Some_0 == self.slot(seek.byte)->Some_0,
    {
        match self.index_of_byte(seek.byte) {
            Some(i) => Some(&self.children[i]),
            None => None,
        }
    }

    /// Every used position holds a non-empty node, so `count` is also the
    /// number of non-empty children.
    pub open spec fn dense(&self) -> bool {
        forall|i: int| 0 <= i < self.count ==> !((#[trigger] self.children@[i]) is Empty)
    }

    /// `new` is this node with `c` put in the slot kept for byte `b`.
    pub open spec fn replaced(&self, new: Node4<V>, b: u8, c: Node<V>) -> bool {
        &&& new.count == self.count
        &&& new.key@ == self.key@
        &&& new.children@ == self.children@.update(self.index_of(b), c)
    }

    /// `new` is this node with a new slot for byte `b` holding `c`.
    pub open spec fn placed(&self, new: Node4<V>, b: u8, c: Node<V>) -> bool {
        &&& new.count == self.count + 1
        &&& new.key@ == self.key@.update(self.count as int, b)
        &&& new.children@ == self.children@.update(self.count as int, c)
    }

    #[verifier::spinoff_prover]
    pub fn add_child(&mut self, seek: Seek<'_>, child: Node<V>) -> (r: &mut Node<V>)
        requires
            old(self).wf(),
            old(self).count < 4,
            old(self).slot(seek.byte) is None,
        ensures
            *r == child,
            final(self).count == old(self).count + 1,
            final(self).key@ == old(self).key@.update(old(self).count as int, seek.byte),
            final(self).children@ == old(self).children@.update(old(self).count as int, *final(r)),
            old(self).placed(*final(self), seek.byte, *final(r)),
            final(self).wf(),
            final(self).slot(seek.byte) == Some(*final(r)),
            forall|x: u8| x != seek.byte ==> final(self).slot(x) == old(self).slot(x),
    {
        let i = self.count as usize;
        self.key[i] = seek.byte;
        self.children[i] = child;
        self.count += 1;
        proof {
            assert forall|new: Node4<V>, c: Node<V>| #[trigger]
                old(self).placed(new, seek.byte, c) implies {
                &&& new.wf()
                &&& new.slot(seek.byte) == Some(c)
                &&& forall|x: u8| x != seek.byte ==> new.slot(x) == old(self).slot(x)
            } by {
                old(self).lemma_placed(new, seek.byte, c);
            }
        }
        &mut self.children[i]
    }

    /// Every used position but `j` holds a non-empty node.
    pub open spec fn dense_except(&self, j: int) -> bool {
        forall|i: int| 0 <= i < self.count && i != j ==> !((#[trigger] self.children@[i]) is Empty)
    }

    /// Drops the slot for `seek.byte`, which holds an empty node, moving the
    /// later entries one place down.
    pub fn release(&mut self, seek: Seek<'_>)
        requires
            old(self).wf(),
            old(self).has(seek.byte),
            old(self).children@[old(self).index_of(seek.byte)] is Empty,
        ensures
            final(self).wf(),
            final(self).count == old(self).count - 1,
            final(self).slot(seek.byte) is None,
            forall|x: u8| x != seek.byte ==> final(self).slot(x) == old(self).slot(x),
            old(self).dense_except(old(self).index_of(seek.byte)) ==> final(self).dense(),
    {
        let i = match self.index_of_byte(seek.byte) {
            Some(i) => i,
            None => return,
        };
        let c = self.count as usize;
        let mut k: usize = i;
        while k + 1 < c
            invariant
                i <= k < c <= 4,
                c == old(self).count,
                i == old(self).index_of(seek.byte),
                self.count == old(self).count,
                forall|p: int| 0 <= p < i ==> #[trigger] self.key@[p] == old(self).key@[p],
                forall|p: int| 0 <= p < i ==> #[trigger] self.children@[p] == old(self).children@[p],
                forall|p: int| i <= p < k ==> #[trigger] self.key@[p] == old(self).key@[p + 1],
                forall|p: int|
                    i <= p < k ==> #[trigger] self.children@[p] == old(self).children@[p + 1],
                self.key@[k as int] == old(self).key@[i as int],
                self.children@[k as int] == old(self).children@[i as int],
                forall|p: int| k < p < 4 ==> #[trigger] self.key@[p] == old(self).key@[p],
                forall|p: int| k < p < 4 ==> #[trigger] self.children@[p] == old(self).children@[p],
            decreases c - k,
        {
            swap_unchecked(&mut self.key, k, k + 1);
            swap_unchecked(&mut self.children, k, k + 1);
            k += 1;
        }
        self.count -= 1;
        proof {
            let o = *old(self);
            let n = *self;
            o.lemma_slot_at(i as int);
            assert forall|a: int, b: int| 0 <= a < b < n.count implies #[trigger] n.key@[a] != #[trigger] n.key@[b] by {
                let oa = if a < i { a } else { a + 1 };
                let ob = if b < i { b } else { b + 1 };
                assert(n.key@[a] == o.key@[oa]);
                assert(n.key@[b] == o.key@[ob]);
                assert(o.key@[oa] != o.key@[ob] || oa == ob);
            }
            assert forall|x: u8| x != seek.byte implies n.slot(x) == o.slot(x) by {
                if o.has(x) {
                    let j = o.index_of(x);
                    o.lemma_slot_at(j);
                    if j < i {
                        n.lemma_slot_at(j);
                    } else {
                        assert(j != i);
                        n.lemma_slot_at(j - 1);
                    }
                } else if n.has(x) {
                    let q = n.index_of(x);
                    if q < i {
                        assert(o.key@[q] == x);
                    } else {
                        assert(o.key@[q + 1] == x);
                    }
                }
            }
            if n.has(seek.byte) {
                let q = n.index_of(seek.byte);
                if q < i {
                    assert(o.key@[q] == seek.byte);
                    assert(o.key@[q] != o.key@[i as int]);
                } else {
                    assert(o.key@[q + 1] == seek.byte);
                    assert(o.key@[i as int] != o.key@[q + 1]);
                }
            }
        }
    }

    pub fn find_child_mut(&mut self, seek: Seek<'_>) -> (r: Option<&mut Node<V>>)
        requires
            old(self).wf(),
        ensures
            r is Some <==> old(self).slot(seek.byte) is Some,
            r is None ==> *final(self) == *old(self),
            r is Some ==> *r->Some_0 == old(self).slot(seek.byte)->Some_0 && old(self).replaced(
                *final(self),
                seek.byte,
                *final(r->Some_0),
            ),
    {
        match self.index_of_byte(seek.byte) {
            Some(i) => Some(&mut self.children[i]),
            None => None,
        }
    }

    /// Replacing the child in the slot for `b` keeps every other slot.
    pub proof fn lemma_replaced(&self, new: Node4<V>, b: u8, c: Node<V>)
        requires
            self.wf(),
            self.has(b),
            self.replaced(new, b, c),
        ensures
            new.wf(),
            new.slot(b) == Some(c),
            forall|x: u8| x != b ==> new.slot(x) == self.slot(x),
            self.dense() && !(c is Empty) ==> new.dense(),
    {
        let i = self.index_of(b);
        assert forall|x: u8| x != b implies new.slot(x) == self.slot(x) by {
            if self.has(x) {
                let j = self.index_of(x);
                self.lemma_slot_at(j);
                assert(new.has(x));
                assert(new.index_of(x) == j) by {
                    let k = new.index_of(x);
                    if k != j {
                        if k < j {
                            assert(self.key@[k] != self.key@[j]);
                        } else {
                            assert(self.key@[j] != self.key@[k]);
                        }
                    }
                }
            } else {
                assert(!new.has(x));
            }
        }
        self.lemma_slot_at(i);
        assert(new.has(b));
        assert(new.index_of(b) == i) by {
            let k = new.index_of(b);
            if k != i {
                if k < i {
                    assert(self.key@[k] != self.key@[i]);
                } else {
                    assert(self.key@[i] != self.key@[k]);
                }
            }
        }
    }

    /// A new slot for `b` keeps every other slot and the invariants.
    pub proof fn lemma_placed(&self, new: Node4<V>, b: u8, c: Node<V>)
        requires
            self.wf(),
            !self.has(b),
            self.count < 4,
            self.placed(new, b, c),
        ensures
            new.wf(),
            new.slot(b) == Some(c),
            forall|x: u8| x != b ==> new.slot(x) == self.slot(x),
            self.dense() && !(c is Empty) ==> new.dense(),
    {
        let n = self.count as int;
        assert forall|i: int, j: int| 0 <= i < j < new.count implies #[trigger] new.key@[i]
            != #[trigger] new.key@[j] by {
            if j == n {
                assert(self.key@[i] != b);
            } else {
                assert(self.key@[i] != self.key@[j]);
            }
        }
        assert forall|x: u8| x != b implies new.slot(x) == self.slot(x) by {
            if self.has(x) {
                let j = self.index_of(x);
                self.lemma_slot_at(j);
                new.lemma_slot_at(j);
            } else {
                if new.has(x) {
                    let k = new.index_of(x);
                    assert(k != n);
                    assert(self.key@[k] == x);
                }
            }
        }
        new.lemma_slot_at(n);
    }

    /// The same children in a Node16, their bytes sorted.
    pub fn grow(self) -> (r: Node16<V>)
        requires
            self.wf(),
        ensures
            r.wf(),
            r.count == self.count,
            forall|b: u8| r.slot(b) == self.slot(b),
            self.dense() ==> r.dense(),
    {
        let mut src = self;
        let mut node16 = Node16::new();
        let n = src.count as usize;
        let mut i: usize = 0;
        while i < n
            invariant
                self.wf(),
                n == self.count,
                i <= n,
                src.key == self.key,
                src.count == self.count,
                forall|k: int| i <= k < 4 ==> #[trigger] src.children@[k] == self.children@[k],
                node16.wf(),
                node16.count == i,
                self.dense() ==> node16.dense(),
                forall|b: u8|
                    #[trigger] node16.slot(b) == if self.has(b) && self.index_of(b) < i {
                        self.slot(b)
                    } else {
                        None
                    },
            decreases n - i,
        {
            let mut child = Node::Empty;
            std::mem::swap(&mut child, &mut src.children[i]);
            let byte = src.key[i];
            proof {
                self.lemma_slot_at(i as int);
            }
            let ghost before = node16;
            let keys = src.key;
            node16.add_child(Seek { byte, idx: i, key: &keys }, child);
            proof {
                before.lemma_placed(node16, byte, self.children@[i as int], before.rank(byte));
                assert forall|b: u8|
                    #[trigger] node16.slot(b) == if self.has(b) && self.index_of(b) < i + 1 {
                        self.slot(b)
                    } else {
                        None
                    } by {
                    if b != byte && self.has(b) {
                        self.lemma_slot_at(self.index_of(b));
                    }
                }
            }
            i += 1;
        }
        node16
    }
}

impl<V> Node4<V> {
    pub fn iter(&self) -> (r: Node4Iter<'_, V>)
        ensures
            *r.node4 == *self,
            r.index == 0,
    {
        Node4Iter::new(self)
    }

    pub fn into_iter(self) -> (r: Node4IntoIter<V>)
        ensures
            r.node4 == self,
            r.index == 0,
    {
        Node4IntoIter::new(self)
    }
}

impl<V> Describer for Node4<V> {
    fn describe(&self, d: &mut Describe) {
        d.push_str("Node4")
    }
}

/// Walks the children of a Node4 in insertion order, handing each out.
pub struct Node4IntoIter<V> {
    pub node4: Node4<V>,
    pub index: usize,
}

impl<V> Node4IntoIter<V> {
    pub fn new(node4: Node4<V>) -> (r: Node4IntoIter<V>)
        ensures
            r.node4 == node4,
            r.index == 0,
    {
        Node4IntoIter { node4, index: 0 }
    }

    /// The next byte and the child below it, taken out of the node.
    pub fn next(&mut self) -> (r: Option<(u8, Node<V>)>)
        requires
            old(self).index <= old(self).node4.count <= 4,
        ensures
            old(self).index == old(self).node4.count ==> r is None && *final(self) == *old(self),
            old(self).index < old(self).node4.count ==> {
                &&& r == Some(
                    (
                        old(self).node4.key@[old(self).index as int],
                        old(self).node4.children@[old(self).index as int],
                    ),
                )
                &&& final(self).index == old(self).index + 1
                &&& final(self).node4.key == old(self).node4.key
                &&& final(self).node4.count == old(self).node4.count
                &&& final(self).node4.children@ == old(self).node4.children@.update(
                    old(self).index as int,
                    Node::Empty,
                )
            },
    {
        if self.index == self.node4.count as usize {
            return None;
        }
        let idx = self.node4.key[self.index];
        let mut child = Node::Empty;
        std::mem::swap(&mut child, &mut self.node4.children[self.index]);
        self.index += 1;
        Some((idx, child))
    }
}

/// Walks the children of a Node4 in insertion order.
pub struct Node4Iter<'a, V> {
    pub node4: &'a Node4<V>,
    pub index: usize,
}

impl<'a, V> Node4Iter<'a, V> {
    pub fn new(node4: &'a Node4<V>) -> (r: Node4Iter<'a, V>)
        ensures
            *r.node4 == *node4,
            r.index == 0,
    {
        Node4Iter { node4, index: 0 }
    }

    /// The next byte and the child below it.
    pub fn next(&mut self) -> (r: Option<(u8, &'a Node<V>)>)
        requires
            old(self).index <= old(self).node4.count <= 4,
        ensures
            final(self).node4 == old(self).node4,
            old(self).index == old(self).node4.count ==> r is None && final(self).index
                == old(self).index,
            old(self).index < old(self).node4.count ==> {
                &&& r is Some
                &&& r->Some_0.0 == old(self).node4.key@[old(self).index as int]
                &&& *r->Some_0.1 == old(self).node4.children@[old(self).index as int]
                &&& final(self).index == old(self).index + 1
            },
    {
        if self.index == self.node4.count as usize {
            return None;
        }
        let idx = self.node4.key[self.index];
        let child = &self.node4.children[self.index];
        self.index += 1;
        Some((idx, child))
    }
}

} // verus!
