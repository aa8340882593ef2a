use vstd::prelude::*;

use crate::node::{empty_children, live};
use crate::{Node, Seek};

verus! {

broadcast use vstd::array::group_array_axioms;

/// The number of non-empty nodes in `s`.
pub open spec fn occupied<V>(s: Seq<Node<V>>) -> nat
    decreases s.len(),
{
    if s.len() == 0 {
        0
    } else {
        occupied(s.drop_last()) + if s.last() is Empty {
            0nat
        } else {
            1nat
        }
    }
}

pub proof fn lemma_occupied_update<V>(s: Seq<Node<V>>, i: int, x: Node<V>)
    requires
        0 <= i < s.len(),
    ensures
        occupied(s.update(i, x)) + (if s[i] is Empty {
            0nat
        } else {
            1nat
        }) == occupied(s) + (if x is Empty {
            0nat
        } else {
            1nat
        }),
    decreases s.len(),
{
    let t = s.update(i, x);
    if i == s.len() - 1 {
        assert(t.drop_last() =~= s.drop_last());
    } else {
        assert(t.drop_last() =~= s.drop_last().update(i, x));
        lemma_occupied_update(s.drop_last(), i, x);
    }
}

pub proof fn lemma_occupied_bound<V>(s: Seq<Node<V>>, i: int)
    requires
        0 <= i < s.len(),
        s[i] is Empty,
    ensures
        occupied(s) < s.len(),
    decreases s.len(),
{
    lemma_occupied_le(s.drop_last());
    if i < s.len() - 1 {
        lemma_occupied_bound(s.drop_last(), i);
    }
}

pub proof fn lemma_occupied_le<V>(s: Seq<Node<V>>)
    ensures
        occupied(s) <= s.len(),
    decreases s.len(),
{
    if s.len() > 0 {
        lemma_occupied_le(s.drop_last());
    }
}

pub proof fn lemma_occupied_none<V>(s: Seq<Node<V>>)
    requires
        forall|i: int| 0 <= i < s.len() ==> (#[trigger] s[i]) is Empty,
    ensures
        occupied(s) == 0,
    decreases s.len(),
{
    if s.len() > 0 {
        lemma_occupied_none(s.drop_last());
    }
}

/// The largest inner node: one child position for every byte.
#[derive(Debug)]
pub struct Node256<V> {
    pub children: [Node<V>; 256],
    pub count: u16,
}

impl<V> Node256<V> {
    pub open spec fn slot(&self, b: u8) -> Option<Node<V>> {
        live(Some(self.children@[b as int]))
    }

    /// `count` is the number of non-empty positions.
    pub open spec fn wf(&self) -> bool {
        self.count == occupied(self.children@)
    }

    /// Every position's child counts: always so here, as `count` follows the
    /// non-empty positions.
    pub open spec fn dense(&self) -> bool {
        true
    }

    /// The position of `b` was emptied while still counted.
    pub open spec fn released_at(&self, b: u8) -> bool {
        &&& self.children@[b as int] is Empty
        &&& self.count == occupied(self.children@) + 1
    }

    /// `new` is this node with `c` put at the position of byte `b`.
    pub open spec fn replaced(&self, new: Node256<V>, b: u8, c: Node<V>) -> bool {
        &&& new.count == self.count
        &&& new.children@ == self.children@.update(b as int, c)
    }

    /// `new` is this node with `c` put at the empty position of byte `b`, and
    /// counted.
    pub open spec fn placed(&self, new: Node256<V>, b: u8, c: Node<V>) -> bool {
        &&& new.count == self.count + 1
        &&& new.children@ == self.children@.update(b as int, c)
    }

    pub fn new() -> (r: Node256<V>)
        ensures
            r.wf(),
            r.count == 0,
            forall|b: u8| r.slot(b) is None,
    {
        let r = Node256 { children: empty_children(), count: 0 };
        proof {
            lemma_occupied_none(r.children@);
        }
        r
    }

    pub fn is_full(&self) -> (r: bool)
        ensures
            r == (self.count == 256),
    {
        self.count == 256
    }

    pub fn find_child(&self, seek: Seek<'_>) -> (r: Option<&Node<V>>)
        ensures
            r is Some <==> self.slot(seek.byte) is Some,
            r is Some ==> *r->Some_0 == self.slot(seek.byte)->Some_0,
    {
        let c = &self.children[seek.byte as usize];
        if c.is_empty() {
            None
        } else {
            Some(c)
        }
    }

    pub fn find_child_mut(&mut self, seek: Seek<'_>) -> (r: Option<&mut Node<V>>)
        ensures
            r is Some <==> old(self).slot(seek.byte) is Some,
            r is None ==> *final(self) == *old(self),
            r is Some ==> *r->Some_0 == old(self).slot(seek.byte)->Some_0 && old(self).replaced(
                *final(self),
                seek.byte,
                *final(r->Some_0),
            ),
    {
        if self.children[seek.byte as usize].is_empty() {
            None
        } else {
            Some(&mut self.children[seek.byte as usize])
        }
    }

    pub fn add_child(&mut self, seek: Seek<'_>, child: Node<V>) -> (r: &mut Node<V>)
        requires
            old(self).wf(),
            old(self).slot(seek.byte) is None,
        ensures
            *r == child,
            final(self).count == old(self).count + 1,
            final(self).children@ == old(self).children@.update(seek.byte as int, *final(r)),
            old(self).placed(*final(self), seek.byte, *final(r)),
    {
        proof {
            lemma_occupied_bound(self.children@, seek.byte as int);
        }
        self.count += 1;
        let b = seek.byte as usize;
        self.children[b] = child;
        &mut self.children[b]
    }

    /// Stops counting the position of `seek.byte` if it has been emptied.
    pub fn release(&mut self, seek: Seek<'_>)
        requires
            old(self).wf() && old(self).slot(seek.byte) is Some || old(self).released_at(
                seek.byte,
            ),
        ensures
            final(self).wf(),
            final(self).children == old(self).children,
    {
        if self.children[seek.byte as usize].is_empty() {
            self.count -= 1;
        }
    }

    /// Replacing the child in the slot for `b` keeps every other slot.
    pub proof fn lemma_replaced(&self, new: Node256<V>, b: u8, c: Node<V>)
        requires
            self.wf(),
            self.slot(b) is Some,
            self.replaced(new, b, c),
        ensures
            !(c is Empty) ==> new.wf() && new.slot(b) == Some(c),
            c is Empty ==> new.released_at(b) && new.slot(b) is None,
            forall|x: u8| x != b ==> new.slot(x) == self.slot(x),
    {
        lemma_occupied_update(self.children@, b as int, c);
    }

    /// A new slot for `b` keeps every other slot and the invariants.
    pub proof fn lemma_placed(&self, new: Node256<V>, b: u8, c: Node<V>)
        requires
            self.wf(),
            self.slot(b) is None,
            self.placed(new, b, c),
        ensures
            !(c is Empty) ==> new.wf() && new.slot(b) == Some(c),
            forall|x: u8| x != b ==> new.slot(x) == self.slot(x),
    {
        lemma_occupied_update(self.children@, b as int, c);
    }
}

/// Walks the non-empty children of a Node256 in ascending byte order,
/// handing each out.
pub struct Node256IntoIter<V> {
    pub node256: Node256<V>,
    pub index: usize,
}

impl<V> Node256IntoIter<V> {
    pub fn new(node256: Node256<V>) -> (r: Node256IntoIter<V>)
        ensures
            r.node256 == node256,
            r.index == 0,
    {
        Node256IntoIter { node256, index: 0 }
    }

    /// The next byte with a non-empty child, and the child, taken out of the
    /// node (which stops counting it).
    pub fn next(&mut self) -> (r: Option<(u8, Node<V>)>)
        requires
            old(self).index <= 256,
            old(self).node256.wf(),
        ensures
            final(self).index <= 256,
            final(self).node256.wf(),
            r is None ==> final(self).index == 256 && final(self).node256 == old(self).node256
                && forall|b: u8| old(self).index <= b ==> old(self).node256.slot(b) is None,
            r matches Some((b, c)) ==> {
                &&& old(self).index <= b
                &&& final(self).index == b + 1
                &&& old(self).node256.slot(b) == Some(c)
                &&& final(self).node256.children@ == old(self).node256.children@.update(
                    b as int,
                    Node::Empty,
                )
                &&& forall|x: u8| old(self).index <= x < b ==> old(self).node256.slot(x) is None
            },
    {
        while self.index < 256
            invariant
                old(self).index <= self.index <= 256,
                self.node256 == old(self).node256,
                self.node256.wf(),
                forall|x: u8|
                    old(self).index <= x < self.index ==> old(self).node256.slot(x) is None,
            decreases 256 - self.index,
        {
            let b = self.index;
            self.index += 1;
            if !self.node256.children[b].is_empty() {
                let mut child = Node::Empty;
                std::mem::swap(&mut child, &mut self.node256.children[b]);
                proof {
                    lemma_occupied_update(old(self).node256.children@, b as int, Node::Empty);
                }
                self.node256.count -= 1;
                return Some((b as u8, child));
            }
        }
        None
    }
}

/// Walks the non-empty children of a Node256 in ascending byte order.
pub struct Node256Iter<'a, V> {
    pub node256: &'a Node256<V>,
    pub index: usize,
}

impl<'a, V> Node256Iter<'a, V> {
    pub fn new(node256: &'a Node256<V>) -> (r: Node256Iter<'a, V>)
        ensures
            *r.node256 == *node256,
            r.index == 0,
    {
        Node256Iter { node256, index: 0 }
    }

    /// The next byte with a non-empty child, and the child.
    pub fn next(&mut self) -> (r: Option<(u8, &'a Node<V>)>)
        requires
            old(self).index <= 256,
        ensures
            final(self).node256 == old(self).node256,
            final(self).index <= 256,
            r is None ==> final(self).index == 256 && forall|b: u8|
                old(self).index <= b ==> old(self).node256.slot(b) is None,
            r matches Some((b, c)) ==> {
                &&& old(self).index <= b
                &&& final(self).index == b + 1
                &&& old(self).node256.slot(b) == Some(*c)
                &&& forall|x: u8| old(self).index <= x < b ==> old(self).node256.slot(x) is None
            },
    {
        while self.index < 256
            invariant
                old(self).index <= self.index <= 256,
                self.node256 == old(self).node256,
                forall|x: u8|
                    old(self).index <= x < self.index ==> old(self).node256.slot(x) is None,
            decreases 256 - self.index,
        {
            let b = self.index;
            self.index += 1;
            let c = &self.node256.children[b];
            if !c.is_empty() {
                return Some((b as u8, c));
            }
        }
        None
    }
}

} // verus!
