use vstd::prelude::*;

use crate::{Leaf, Node16, Node256, Node4, Node48};

verus! {

/// The cursor carried down a walk: the whole key, the position reached in it,
/// and the byte at that position.
#[derive(Debug, Clone, Copy)]
pub struct Seek<'a> {
    pub byte: u8,
    pub idx: usize,
    pub key: &'a [u8],
}

impl<'a> Seek<'a> {
    /// A cursor on the first byte of `key`.
    pub fn new(key: &'a [u8]) -> (r: Seek<'a>)
        requires
            key@.len() > 0,
        ensures
            r.byte == key@[0],
            r.idx == 0,
            r.key@ == key@,
    {
        Seek { byte: key[0], idx: 0, key }
    }

    /// A cursor on position `idx` of `key`.
    pub fn at(key: &'a [u8], idx: usize) -> (r: Seek<'a>)
        requires
            idx < key@.len(),
        ensures
            r.byte == key@[idx as int],
            r.idx == idx,
            r.key@ == key@,
    {
        Seek { byte: key[idx], idx, key }
    }
}

/// Relies on array_init::array_init: it fills each position of the array with
/// what the initializer returns for it, here an empty node.
#[verifier::external_body]
pub(crate) fn empty_children<V, const N: usize>() -> (r: [Node<V>; N])
    ensures
        forall|i: int| 0 <= i < N ==> (#[trigger] r@[i]) is Empty,
{
    array_init::array_init(|_| Node::Empty)
}

/// `s` with an empty node read as no node.
pub open spec fn live<V>(s: Option<Node<V>>) -> Option<Node<V>> {
    match s {
        Some(c) => if c is Empty {
            None
        } else {
            Some(c)
        },
        None => None,
    }
}

/// A position in the tree.
#[derive(Debug)]
pub enum Node<V> {
    /// No node: no value and no children.
    Empty,
    /// A key ends here and nothing continues below.
    Leaf(Leaf<V>),
    /// An inner node.
    BoxNode(BoxNode<V>),
    /// An inner node at a position where a key also ends.
    BoxNodeLeaf(BoxNode<V>, Leaf<V>),
}

/// The inner node kinds, by capacity.
#[derive(Debug)]
pub enum BoxNode<V> {
    /// Transient placeholder while an inner node is being replaced.
    Empty,
    Node4(Box<Node4<V>>),
    Node16(Box<Node16<V>>),
    Node48(Box<Node48<V>>),
    Node256(Box<Node256<V>>),
}

impl<V> BoxNode<V> {
    /// The invariants of the inner node kind (the placeholder satisfies none).
    pub open spec fn wf(&self) -> bool {
        match self {
            BoxNode::Empty => false,
            BoxNode::Node4(n) => n.wf(),
            BoxNode::Node16(n) => n.wf(),
            BoxNode::Node48(n) => n.wf(),
            BoxNode::Node256(n) => n.wf(),
        }
    }

    /// The child slot that the node keeps for byte `b`, if any.
    pub open spec fn slot(&self, b: u8) -> Option<Node<V>> {
        match self {
            BoxNode::Empty => None,
            BoxNode::Node4(n) => n.slot(b),
            BoxNode::Node16(n) => n.slot(b),
            BoxNode::Node48(n) => n.slot(b),
            BoxNode::Node256(n) => n.slot(b),
        }
    }

    /// The number of children the node accounts for.
    pub open spec fn count(&self) -> nat {
        match self {
            BoxNode::Empty => 0,
            BoxNode::Node4(n) => n.count as nat,
            BoxNode::Node16(n) => n.count as nat,
            BoxNode::Node48(n) => n.count as nat,
            BoxNode::Node256(n) => n.count as nat,
        }
    }

    /// The capacity of the node's kind.
    pub open spec fn capacity(&self) -> nat {
        match self {
            BoxNode::Empty => 0,
            BoxNode::Node4(_) => 4,
            BoxNode::Node16(_) => 16,
            BoxNode::Node48(_) => 48,
            BoxNode::Node256(_) => 256,
        }
    }

    /// Every used position holds a non-empty node.
    pub open spec fn dense(&self) -> bool {
        match self {
            BoxNode::Empty => true,
            BoxNode::Node4(n) => n.dense(),
            BoxNode::Node16(n) => n.dense(),
            BoxNode::Node48(n) => n.dense(),
            BoxNode::Node256(n) => n.dense(),
        }
    }

    /// Every used position holds a non-empty node, except perhaps the slot
    /// for `b`.
    pub open spec fn dense_except_slot(&self, b: u8) -> bool {
        match self {
            BoxNode::Empty => true,
            BoxNode::Node4(n) => if n.has(b) {
                n.dense_except(n.index_of(b))
            } else {
                n.dense()
            },
            BoxNode::Node16(n) => if n.has(b) {
                n.dense_except(n.index_of(b))
            } else {
                n.dense()
            },
            BoxNode::Node48(n) => if n.index(b) != 0 {
                n.dense_except(n.index(b) - 1)
            } else {
                n.dense()
            },
            BoxNode::Node256(n) => true,
        }
    }

    /// A 256-way node whose slot at `b` was just emptied and is still counted.
    pub open spec fn released_at(&self, b: u8) -> bool {
        match self {
            BoxNode::Node256(n) => n.released_at(b),
            _ => false,
        }
    }
}

impl<V> BoxNode<V> {
    /// `new` is this node, of the same kind, with `c` put in the slot kept for
    /// byte `b`.
    pub open spec fn replaced(&self, new: BoxNode<V>, b: u8, c: Node<V>) -> bool {
        match (self, new) {
            (BoxNode::Node4(x), BoxNode::Node4(y)) => x.replaced(*y, b, c),
            (BoxNode::Node16(x), BoxNode::Node16(y)) => x.replaced(*y, b, c),
            (BoxNode::Node48(x), BoxNode::Node48(y)) => x.replaced(*y, b, c),
            (BoxNode::Node256(x), BoxNode::Node256(y)) => x.replaced(*y, b, c),
            _ => false,
        }
    }

    /// `new` is this node, of the same kind, with a new slot for byte `b`
    /// holding `c`.
    pub open spec fn placed(&self, new: BoxNode<V>, b: u8, c: Node<V>) -> bool {
        match (self, new) {
            (BoxNode::Node4(x), BoxNode::Node4(y)) => x.placed(*y, b, c),
            (BoxNode::Node16(x), BoxNode::Node16(y)) => x.placed_at(*y, b, c, x.rank(b)),
            (BoxNode::Node48(x), BoxNode::Node48(y)) => x.placed(*y, b, c),
            (BoxNode::Node256(x), BoxNode::Node256(y)) => x.placed(*y, b, c),
            _ => false,
        }
    }

    /// The node is of the smallest kind that had room for its children when
    /// it was last promoted: a Node16, Node48 or Node256 holds more children
    /// than the next smaller kind can.
    pub open spec fn snug(&self) -> bool {
        match self {
            BoxNode::Node16(n) => n.count > 4,
            BoxNode::Node48(n) => n.count > 16,
            BoxNode::Node256(n) => n.count > 48,
            _ => true,
        }
    }

    /// `new` is of the next larger kind; a 256-way node stays 256-way.
    pub open spec fn promoted_to(&self, new: BoxNode<V>) -> bool {
        &&& self is Node4 ==> new is Node16
        &&& self is Node16 ==> new is Node48
        &&& self is Node48 ==> new is Node256
        &&& self is Node256 ==> new is Node256
    }

    /// Room for one more child: below capacity, or a 256-way node, which has
    /// a position for every byte.
    pub open spec fn has_room(&self) -> bool {
        self.count() < self.capacity() || self is Node256
    }

    /// What a node of any kind looks like after the child in the slot for `b`
    /// is replaced: the other slots stay, and only an emptied child of a
    /// 256-way node leaves the count to be settled.
    pub proof fn lemma_replaced(&self, b: u8)
        requires
            self.wf(),
            self.slot(b) is Some,
        ensures
            forall|new: BoxNode<V>, c: Node<V>|
                #[trigger] self.replaced(new, b, c) ==> {
                    &&& forall|x: u8| x != b ==> new.slot(x) == self.slot(x)
                    &&& live(new.slot(b)) == live(Some(c))
                    &&& (new.wf() && new.slot(b) is Some) || new.released_at(b)
                    &&& !(c is Empty) ==> new.wf()
                    &&& self.dense() && !(c is Empty) ==> new.dense()
                    &&& self.dense() ==> new.dense_except_slot(b)
                    &&& self.snug() ==> new.snug()
                    &&& new.count() == self.count()
                    &&& new.capacity() == self.capacity()
                },
    {
        assert forall|new: BoxNode<V>, c: Node<V>| #[trigger] self.replaced(new, b, c) implies {
            &&& forall|x: u8| x != b ==> new.slot(x) == self.slot(x)
            &&& live(new.slot(b)) == live(Some(c))
            &&& (new.wf() && new.slot(b) is Some) || new.released_at(b)
            &&& !(c is Empty) ==> new.wf()
            &&& self.dense() && !(c is Empty) ==> new.dense()
            &&& self.dense() ==> new.dense_except_slot(b)
            &&& self.snug() ==> new.snug()
            &&& new.count() == self.count()
            &&& new.capacity() == self.capacity()
        } by {
            match (self, new) {
                (BoxNode::Node4(x), BoxNode::Node4(y)) => x.lemma_replaced(*y, b, c),
                (BoxNode::Node16(x), BoxNode::Node16(y)) => x.lemma_replaced(*y, b, c),
                (BoxNode::Node48(x), BoxNode::Node48(y)) => x.lemma_replaced(*y, b, c),
                (BoxNode::Node256(x), BoxNode::Node256(y)) => x.lemma_replaced(*y, b, c),
                _ => {},
            }
        }
    }

    /// What a node of any kind looks like after a child is placed in a new
    /// slot for `b`: the invariants hold again once the child is non-empty.
    pub proof fn lemma_placed(&self, b: u8)
        requires
            self.wf(),
            self.slot(b) is None,
            self.has_room(),
        ensures
            forall|new: BoxNode<V>, c: Node<V>|
                #[trigger] self.placed(new, b, c) ==> {
                    &&& !(c is Empty) ==> new.wf() && new.slot(b) == Some(c)
                    &&& self.dense() && !(c is Empty) ==> new.dense()
                    &&& forall|x: u8| x != b ==> new.slot(x) == self.slot(x)
                    &&& new.count() == self.count() + 1
                    &&& self.snug() ==> new.snug()
                },
    {
        assert forall|new: BoxNode<V>, c: Node<V>| #[trigger] self.placed(new, b, c) implies {
            &&& !(c is Empty) ==> new.wf() && new.slot(b) == Some(c)
            &&& self.dense() && !(c is Empty) ==> new.dense()
            &&& forall|x: u8| x != b ==> new.slot(x) == self.slot(x)
            &&& new.count() == self.count() + 1
            &&& self.snug() ==> new.snug()
        } by {
            match (self, new) {
                (BoxNode::Node4(x), BoxNode::Node4(y)) => x.lemma_placed(*y, b, c),
                (BoxNode::Node16(x), BoxNode::Node16(y)) => x.lemma_placed(*y, b, c, x.rank(b)),
                (BoxNode::Node48(x), BoxNode::Node48(y)) => x.lemma_placed(*y, b, c),
                (BoxNode::Node256(x), BoxNode::Node256(y)) => x.lemma_placed(*y, b, c),
                _ => {},
            }
        }
    }

    pub fn find_child(&self, seek: Seek<'_>) -> (r: Option<&Node<V>>)
        requires
            self.wf(),
        ensures
            r is Some <==> self.slot(seek.byte) is Some,
            r is Some ==> *r->Some_0 == self.slot(seek.byte)->Some_0,
    {
        match self {
            BoxNode::Node4(n) => n.find_child(seek),
            BoxNode::Node16(n) => n.find_child(seek),
            BoxNode::Node48(n) => n.find_child(seek),
            BoxNode::Node256(n) => n.find_child(seek),
            BoxNode::Empty => None,
        }
    }

    pub fn find_child_mut(&mut self, seek: Seek<'_>) -> (r: Option<&mut Node<V>>)
        requires
            old(self).wf(),
        ensures
            r is Some <==> old(self).slot(seek.byte) is Some,
            r is None ==> *final(self) == *old(self),
            r is Some ==> *r->Some_0 == old(self).slot(seek.byte)->Some_0 && old(self).replaced(
                *final(self),
                seek.byte,
                *final(r->Some_0),
            ),
    {
        match self {
            BoxNode::Node4(n) => n.find_child_mut(seek),
            BoxNode::Node16(n) => n.find_child_mut(seek),
            BoxNode::Node48(n) => n.find_child_mut(seek),
            BoxNode::Node256(n) => n.find_child_mut(seek),
            BoxNode::Empty => None,
        }
    }

    pub fn is_full(&self) -> (r: bool)
        requires
            self.wf(),
        ensures
            r == (self.count() == self.capacity()),
    {
        match self {
            BoxNode::Node4(n) => n.is_full(),
            BoxNode::Node16(n) => n.is_full(),
            BoxNode::Node48(n) => n.is_full(),
            BoxNode::Node256(n) => n.is_full(),
            BoxNode::Empty => false,
        }
    }

    pub fn is_none(&self) -> (r: bool)
        ensures
            r == (*self is Empty),
    {
        match self {
            BoxNode::Empty => true,
            _ => false,
        }
    }

    pub fn add_child(&mut self, seek: Seek<'_>, child: Node<V>) -> (r: &mut Node<V>)
        requires
            old(self).wf(),
            old(self).slot(seek.byte) is None,
            old(self).has_room(),
        ensures
            *r == child,
            old(self).placed(*final(self), seek.byte, *final(r)),
    {
        match self {
            BoxNode::Node4(n) => n.add_child(seek, child),
            BoxNode::Node16(n) => n.add_child(seek, child),
            BoxNode::Node48(n) => n.add_child(seek, child),
            BoxNode::Node256(n) => n.add_child(seek, child),
            BoxNode::Empty => vstd::pervasive::unreached(),
        }
    }

    /// Replaces the node by the next larger kind holding the same children;
    /// a 256-way node stays as it is.
    pub fn grow(&mut self)
        requires
            old(self).wf(),
        ensures
            final(self).wf(),
            final(self).has_room(),
            old(self).dense() ==> final(self).dense(),
            old(self).promoted_to(*final(self)),
            !(*old(self) is Node48) || old(self).dense()
                ==> final(self).count() == old(self).count(),
            forall|b: u8| live(#[trigger] final(self).slot(b)) == live(old(self).slot(b)),
            forall|b: u8| #[trigger] old(self).slot(b) is None ==> final(self).slot(b) is None,
    {
        let mut owned = BoxNode::Empty;
        std::mem::swap(&mut owned, self);
        *self = match owned {
            BoxNode::Node4(n) => BoxNode::Node16(Box::new(n.grow())),
            BoxNode::Node16(n) => BoxNode::Node48(Box::new(n.grow())),
            BoxNode::Node48(n) => BoxNode::Node256(Box::new(n.grow())),
            other => other,
        };
    }

    pub fn grow_if_full(&mut self)
        requires
            old(self).wf(),
        ensures
            final(self).wf(),
            final(self).has_room(),
            old(self).dense() ==> final(self).dense(),
            old(self).count() < old(self).capacity() ==> *final(self) == *old(self),
            old(self).count() == old(self).capacity() ==> old(self).promoted_to(*final(self)),
            old(self).dense() ==> final(self).count() == old(self).count(),
            forall|b: u8| live(#[trigger] final(self).slot(b)) == live(old(self).slot(b)),
            forall|b: u8| #[trigger] old(self).slot(b) is None ==> final(self).slot(b) is None,
    {
        if self.is_full() {
            self.grow()
        }
    }

    /// Drops the slot for `seek.byte` if the child there has been emptied, so
    /// that the count follows the non-empty children.
    pub fn release(&mut self, seek: Seek<'_>)
        requires
            old(self).wf() && old(self).slot(seek.byte) is Some || old(self).released_at(seek.byte),
        ensures
            final(self).wf(),
            final(self).slot(seek.byte) == live(old(self).slot(seek.byte)),
            forall|b: u8| b != seek.byte ==> #[trigger] final(self).slot(b) == old(self).slot(b),
            old(self).dense_except_slot(seek.byte) ==> final(self).dense(),
    {
        match self {
            BoxNode::Node4(n) => {
                let emptied = match n.find_child(seek) {
                    Some(c) => c.is_empty(),
                    None => false,
                };
                if emptied {
                    n.release(seek);
                }
            },
            BoxNode::Node16(n) => {
                let emptied = match n.find_child(seek) {
                    Some(c) => c.is_empty(),
                    None => false,
                };
                if emptied {
                    n.release(seek);
                }
            },
            BoxNode::Node48(n) => {
                let emptied = match n.find_child(seek) {
                    Some(c) => c.is_empty(),
                    None => false,
                };
                if emptied {
                    n.release(seek);
                }
            },
            BoxNode::Node256(n) => n.release(seek),
            BoxNode::Empty => {},
        }
    }
}

impl<V> Default for Node<V> {
    fn default() -> (r: Self)
        ensures
            r is Empty,
    {
        Node::Empty
    }
}

impl<V> Node<V> {
    /// The value stored at this position, if a key ends here.
    pub open spec fn value(&self) -> Option<V> {
        match self {
            Node::Leaf(l) => Some(l.val),
            Node::BoxNodeLeaf(_, l) => Some(l.val),
            _ => None,
        }
    }

    /// The child slot kept for byte `b`, if any (it may hold an empty node).
    pub open spec fn slot(&self, b: u8) -> Option<Node<V>> {
        match self {
            Node::BoxNode(bn) => bn.slot(b),
            Node::BoxNodeLeaf(bn, _) => bn.slot(b),
            _ => None,
        }
    }

    /// The child below byte `b`, if there is a non-empty one.
    pub open spec fn child(&self, b: u8) -> Option<Node<V>> {
        live(self.slot(b))
    }

    /// The invariants of this one position.
    pub open spec fn wf_local(&self) -> bool {
        match self {
            Node::BoxNode(bn) => bn.wf(),
            Node::BoxNodeLeaf(bn, _) => bn.wf(),
            _ => true,
        }
    }

    /// The inner node here, if any, has a non-empty node in every used
    /// position.
    pub open spec fn dense_local(&self) -> bool {
        self.inner().dense()
    }

    /// Every node reachable from this one has a non-empty node in every used
    /// position: each `count` is the number of non-empty children.
    pub open spec fn dense(&self) -> bool {
        forall|p: Seq<u8>| #[trigger] self.at(p) is Some ==> self.at(p)->Some_0.dense_local()
    }

    /// Every inner node reachable from this one is of the smallest kind that
    /// had room for its children when it was last promoted.
    pub open spec fn snug(&self) -> bool {
        forall|p: Seq<u8>| #[trigger] self.at(p) is Some ==> self.at(p)->Some_0.inner().snug()
    }

    /// An inner node here whose emptied child at `b` is still counted.
    pub open spec fn released_at(&self, b: u8) -> bool {
        match self {
            Node::BoxNode(bn) => bn.released_at(b),
            Node::BoxNodeLeaf(bn, _) => bn.released_at(b),
            _ => false,
        }
    }

    /// Whether an inner node sits here.
    pub open spec fn is_inner(&self) -> bool {
        self is BoxNode || self is BoxNodeLeaf
    }

    /// The inner node here, or the placeholder if there is none.
    pub open spec fn inner(&self) -> BoxNode<V> {
        match self {
            Node::BoxNode(bn) => *bn,
            Node::BoxNodeLeaf(bn, _) => *bn,
            _ => BoxNode::Empty,
        }
    }

    pub fn is_empty(&self) -> (r: bool)
        ensures
            r == (*self is Empty),
    {
        match self {
            Node::Empty => true,
            _ => false,
        }
    }

    /// The node reached from this one by following the bytes of `p`.
    pub open spec fn at(&self, p: Seq<u8>) -> Option<Node<V>>
        decreases p.len(),
    {
        if p.len() == 0 {
            Some(*self)
        } else {
            match self.child(p[0]) {
                Some(c) => c.at(p.drop_first()),
                None => None,
            }
        }
    }

    /// The value stored under the key `k`, read from this node down.
    pub open spec fn lookup(&self, k: Seq<u8>) -> Option<V> {
        match self.at(k) {
            Some(n) => n.value(),
            None => None,
        }
    }

    /// Every node reachable from this one satisfies its invariants.
    pub open spec fn wf(&self) -> bool {
        forall|p: Seq<u8>| #[trigger] self.at(p) is Some ==> self.at(p)->Some_0.wf_local()
    }

    pub fn is_none(&self) -> (r: bool)
        ensures
            r == (*self is Empty || *self == Node::<V>::BoxNode(BoxNode::Empty)),
    {
        match self {
            Node::Empty => true,
            Node::BoxNode(bn) => bn.is_none(),
            _ => false,
        }
    }

    pub fn find_child(&self, seek: Seek<'_>) -> (r: Option<&Node<V>>)
        requires
            self.wf_local(),
        ensures
            r is Some <==> self.slot(seek.byte) is Some,
            r is Some ==> *r->Some_0 == self.slot(seek.byte)->Some_0,
    {
        match self {
            Node::BoxNode(bn) => bn.find_child(seek),
            Node::BoxNodeLeaf(bn, _) => bn.find_child(seek),
            _ => None,
        }
    }

    pub fn find_child_mut(&mut self, seek: Seek<'_>) -> (r: Option<&mut Node<V>>)
        requires
            old(self).wf_local(),
        ensures
            r is Some <==> old(self).slot(seek.byte) is Some,
            r is None ==> *final(self) == *old(self),
            r is Some ==> {
                &&& *r->Some_0 == old(self).slot(seek.byte)->Some_0
                &&& final(self).value() == old(self).value()
                &&& forall|x: u8| x != seek.byte ==> final(self).slot(x) == old(self).slot(x)
                &&& live(final(self).slot(seek.byte)) == live(Some(*final(r->Some_0)))
                &&& (final(self).wf_local() && final(self).slot(seek.byte) is Some)
                    || final(self).released_at(seek.byte)
                &&& !(*final(r->Some_0) is Empty) ==> final(self).wf_local()
                &&& old(self).dense_local() && !(*final(r->Some_0) is Empty)
                    ==> final(self).dense_local()
                &&& old(self).dense_local() ==> final(self).inner().dense_except_slot(seek.byte)
                &&& old(self).inner().snug() ==> final(self).inner().snug()
            },
    {
        proof {
            if old(self).slot(seek.byte) is Some {
                old(self).inner().lemma_replaced(seek.byte);
            }
        }
        match self {
            Node::BoxNode(bn) => bn.find_child_mut(seek),
            Node::BoxNodeLeaf(bn, _) => bn.find_child_mut(seek),
            _ => None,
        }
    }

    /// Stores `val` at this position and hands back the value it replaces.
    pub fn insert_in_leaf(&mut self, val: V) -> (r: Option<V>)
        requires
            old(self).wf_local(),
        ensures
            r == old(self).value(),
            final(self).value() == Some(val),
            forall|x: u8| #[trigger] final(self).slot(x) == old(self).slot(x),
            final(self).wf_local(),
            final(self).dense_local() == old(self).dense_local(),
            !(*final(self) is Empty),
            final(self).is_inner() == old(self).is_inner(),
            final(self).inner() == old(self).inner(),
    {
        match self {
            Node::Empty => {
                *self = Node::Leaf(Leaf::new(val));
                None
            },
            Node::Leaf(leaf) => Some(leaf.insert(val)),
            Node::BoxNode(_) => {
                let mut owned = Node::Empty;
                std::mem::swap(&mut owned, self);
                if let Node::BoxNode(bn) = owned {
                    *self = Node::BoxNodeLeaf(bn, Leaf::new(val));
                }
                None
            },
            Node::BoxNodeLeaf(_, leaf) => Some(leaf.insert(val)),
        }
    }

    /// Takes the value stored at this position out, keeping its children.
    pub fn remove_leaf(&mut self) -> (r: Option<V>)
        requires
            old(self).wf_local(),
        ensures
            r == old(self).value(),
            final(self).value() is None,
            forall|x: u8| #[trigger] final(self).slot(x) == old(self).slot(x),
            final(self).wf_local(),
            final(self).is_inner() == old(self).is_inner(),
            final(self).inner() == old(self).inner(),
            !old(self).is_inner() ==> *final(self) is Empty,
    {
        match self {
            Node::Leaf(_) => {
                let mut owned = Node::Empty;
                std::mem::swap(&mut owned, self);
                match owned {
                    Node::Leaf(leaf) => Some(leaf.val),
                    _ => None,
                }
            },
            Node::BoxNodeLeaf(_, _) => {
                let mut owned = Node::Empty;
                std::mem::swap(&mut owned, self);
                match owned {
                    Node::BoxNodeLeaf(bn, leaf) => {
                        *self = Node::BoxNode(bn);
                        Some(leaf.val)
                    },
                    _ => None,
                }
            },
            _ => None,
        }
    }

    /// Turns this position into an inner node with room for one more child.
    pub fn grow_if_full(&mut self)
        requires
            old(self).wf_local(),
        ensures
            final(self).is_inner(),
            final(self).wf_local(),
            final(self).inner().has_room(),
            old(self).dense_local() ==> final(self).dense_local(),
            !old(self).is_inner() ==> final(self).inner() is Node4 && final(self).inner().count()
                == 0,
            *old(self) is Leaf ==> *final(self) is BoxNodeLeaf,
            old(self).dense_local() ==> final(self).inner().count() == old(self).inner().count(),
            old(self).is_inner() && old(self).inner().count() < old(self).inner().capacity()
                ==> *final(self) == *old(self),
            old(self).is_inner() && old(self).inner().count() == old(self).inner().capacity()
                ==> *final(self) is BoxNode == *old(self) is BoxNode && old(self).inner().promoted_to(
                final(self).inner(),
            ),
            final(self).value() == old(self).value(),
            forall|x: u8| live(#[trigger] final(self).slot(x)) == live(old(self).slot(x)),
            forall|x: u8| #[trigger] old(self).slot(x) is None ==> final(self).slot(x) is None,
    {
        match self {
            Node::Empty => {
                *self = Node::BoxNode(BoxNode::Node4(Box::new(Node4::new())));
            },
            Node::Leaf(_) => {
                let mut owned = Node::Empty;
                std::mem::swap(&mut owned, self);
                if let Node::Leaf(leaf) = owned {
                    *self = Node::BoxNodeLeaf(BoxNode::Node4(Box::new(Node4::new())), leaf);
                }
            },
            Node::BoxNode(bn) => bn.grow_if_full(),
            Node::BoxNodeLeaf(bn, _) => bn.grow_if_full(),
        }
    }

    /// Places `child` below byte `seek.byte`, growing this node first if it
    /// is full, and hands back the placed child.
    pub fn add_child(&mut self, seek: Seek<'_>, child: Node<V>) -> (r: &mut Node<V>)
        requires
            old(self).wf_local(),
            old(self).slot(seek.byte) is None,
        ensures
            *r == child,
            final(self).value() == old(self).value(),
            forall|x: u8| x != seek.byte ==> live(final(self).slot(x)) == live(old(self).slot(x)),
            !(*final(r) is Empty) ==> final(self).wf_local() && final(self).slot(seek.byte) == Some(
                *final(r),
            ),
            old(self).dense_local() && !(*final(r) is Empty) ==> final(self).dense_local(),
            old(self).dense_local() && old(self).inner().snug() ==> final(self).inner().snug(),
    {
        self.grow_if_full();
        proof {
            self.inner().lemma_placed(seek.byte);
        }
        match self {
            Node::BoxNode(bn) => bn.add_child(seek, child),
            Node::BoxNodeLeaf(bn, _) => bn.add_child(seek, child),
            _ => vstd::pervasive::unreached(),
        }
    }

    /// Drops the slot for `seek.byte` if the child there has been emptied.
    pub fn release_child(&mut self, seek: Seek<'_>)
        requires
            (old(self).wf_local() && old(self).slot(seek.byte) is Some) || old(self).released_at(
                seek.byte,
            ),
        ensures
            final(self).wf_local(),
            final(self).value() == old(self).value(),
            final(self).slot(seek.byte) == live(old(self).slot(seek.byte)),
            forall|x: u8| x != seek.byte ==> #[trigger] final(self).slot(x) == old(self).slot(x),
            old(self).inner().dense_except_slot(seek.byte) ==> final(self).dense_local(),
    {
        match self {
            Node::BoxNode(bn) => bn.release(seek),
            Node::BoxNodeLeaf(bn, _) => bn.release(seek),
            _ => {},
        }
    }

    /// The value stored at this position, to be changed in place.
    pub fn value_mut(&mut self) -> (r: Option<&mut V>)
        ensures
            r is Some <==> old(self).value() is Some,
            r is None ==> *final(self) == *old(self),
            r is Some ==> {
                &&& *r->Some_0 == old(self).value()->Some_0
                &&& final(self).value() == Some(*final(r->Some_0))
                &&& forall|x: u8| #[trigger] final(self).slot(x) == old(self).slot(x)
                &&& final(self).wf_local() == old(self).wf_local()
                &&& final(self).dense_local() == old(self).dense_local()
                &&& final(self).inner() == old(self).inner()
                &&& !(*final(self) is Empty)
            },
    {
        match self {
            Node::Leaf(leaf) => Some(&mut leaf.val),
            Node::BoxNodeLeaf(_, leaf) => Some(&mut leaf.val),
            _ => None,
        }
    }

    /// An empty node holds nothing and satisfies every invariant.
    pub proof fn lemma_empty(&self)
        requires
            *self is Empty,
        ensures
            self.wf(),
            self.dense(),
            self.snug(),
            forall|k: Seq<u8>| #[trigger] self.lookup(k) is None,
    {
        assert forall|p: Seq<u8>| #[trigger] self.at(p) is Some implies self.at(p)->Some_0.wf_local()
            && self.at(p)->Some_0.dense_local() && self.at(p)->Some_0.inner().snug() by {
            if p.len() > 0 {
                assert(self.child(p[0]) is None);
            }
        }
        assert forall|k: Seq<u8>| #[trigger] self.lookup(k) is None by {
            if k.len() > 0 {
                assert(self.child(k[0]) is None);
            }
        }
    }

    /// Following `b` then `p` from this node is following `p` from its child
    /// at `b`.
    pub proof fn lemma_at_cons(&self, b: u8, p: Seq<u8>)
        ensures
            self.at(seq![b] + p) == match self.child(b) {
                Some(c) => c.at(p),
                None => None,
            },
    {
        let q = seq![b] + p;
        assert(q[0] == b);
        assert(q.drop_first() =~= p);
    }

    /// A lookup of a non-empty key goes through the child slot of its first
    /// byte.
    pub proof fn lemma_lookup_step(&self, k: Seq<u8>)
        requires
            k.len() > 0,
        ensures
            self.lookup(k) == match self.slot(k[0]) {
                Some(c) => c.lookup(k.drop_first()),
                None => None,
            },
    {
        if let Some(c) = self.slot(k[0]) {
            if c is Empty {
                c.lemma_empty();
            }
        }
    }

    /// The whole subtree is well formed exactly when this node is, and so is
    /// every child slot.
    pub proof fn lemma_wf_step(&self)
        ensures
            self.wf() <==> (self.wf_local() && forall|b: u8|
                #[trigger] self.slot(b) is Some ==> self.slot(b)->Some_0.wf()),
    {
        if self.wf() {
            assert(self.at(Seq::empty()) is Some);
            assert forall|b: u8| #[trigger] self.slot(b) is Some implies self.slot(b)->Some_0.wf() by {
                let c = self.slot(b)->Some_0;
                if c is Empty {
                    c.lemma_empty();
                } else {
                    assert forall|p: Seq<u8>| #[trigger] c.at(p) is Some implies c.at(
                        p,
                    )->Some_0.wf_local() by {
                        self.lemma_at_cons(b, p);
                        assert(self.at(seq![b] + p) is Some);
                    }
                }
            }
        }
        if self.wf_local() && forall|b: u8| #[trigger] self.slot(b) is Some ==> self.slot(b)->Some_0.wf() {
            assert forall|p: Seq<u8>| #[trigger] self.at(p) is Some implies self.at(p)->Some_0.wf_local() by {
                if p.len() > 0 {
                    let c = self.child(p[0])->Some_0;
                    assert(self.slot(p[0]) is Some);
                    assert(c.at(p.drop_first()) is Some);
                }
            }
        }
    }

    /// The whole subtree is dense exactly when this node is, and so is every
    /// child slot.
    pub proof fn lemma_dense_step(&self)
        ensures
            self.dense() <==> (self.dense_local() && forall|b: u8|
                #[trigger] self.slot(b) is Some ==> self.slot(b)->Some_0.dense()),
    {
        if self.dense() {
            assert(self.at(Seq::empty()) is Some);
            assert forall|b: u8| #[trigger] self.slot(b) is Some implies self.slot(
                b,
            )->Some_0.dense() by {
                let c = self.slot(b)->Some_0;
                assert forall|p: Seq<u8>| #[trigger] c.at(p) is Some implies c.at(
                    p,
                )->Some_0.dense_local() by {
                    if c is Empty {
                        if p.len() > 0 {
                            assert(c.child(p[0]) is None);
                        }
                    } else {
                        self.lemma_at_cons(b, p);
                        assert(self.at(seq![b] + p) is Some);
                    }
                }
            }
        }
        if self.dense_local() && forall|b: u8| #[trigger] self.slot(b) is Some ==> self.slot(
            b,
        )->Some_0.dense() {
            assert forall|p: Seq<u8>| #[trigger] self.at(p) is Some implies self.at(
                p,
            )->Some_0.dense_local() by {
                if p.len() > 0 {
                    let c = self.child(p[0])->Some_0;
                    assert(self.slot(p[0]) is Some);
                    assert(c.at(p.drop_first()) is Some);
                }
            }
        }
    }

    /// The whole subtree is snug exactly when this node is, and so is every
    /// child slot.
    pub proof fn lemma_snug_step(&self)
        ensures
            self.snug() <==> (self.inner().snug() && forall|b: u8|
                #[trigger] self.slot(b) is Some ==> self.slot(b)->Some_0.snug()),
    {
        if self.snug() {
            assert(self.at(Seq::empty()) is Some);
            assert forall|b: u8| #[trigger] self.slot(b) is Some implies self.slot(
                b,
            )->Some_0.snug() by {
                let c = self.slot(b)->Some_0;
                assert forall|p: Seq<u8>| #[trigger] c.at(p) is Some implies c.at(
                    p,
                )->Some_0.inner().snug() by {
                    if c is Empty {
                        if p.len() > 0 {
                            assert(c.child(p[0]) is None);
                        }
                    } else {
                        self.lemma_at_cons(b, p);
                        assert(self.at(seq![b] + p) is Some);
                    }
                }
            }
        }
        if self.inner().snug() && forall|b: u8| #[trigger] self.slot(b) is Some ==> self.slot(
            b,
        )->Some_0.snug() {
            assert forall|p: Seq<u8>| #[trigger] self.at(p) is Some implies self.at(
                p,
            )->Some_0.inner().snug() by {
                if p.len() > 0 {
                    let c = self.child(p[0])->Some_0;
                    assert(self.slot(p[0]) is Some);
                    assert(c.at(p.drop_first()) is Some);
                }
            }
        }
    }
}


} // verus!
