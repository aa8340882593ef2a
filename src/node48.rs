use vstd::prelude::*;

use crate::node::{empty_children, live};
use crate::util::swap_unchecked;
use crate::{Node, Node256, Seek};

verus! {

broadcast use vstd::array::group_array_axioms;

/// The number of non-zero entries of `s`.
pub open spec fn nonzero(s: Seq<u8>) -> nat
    decreases s.len(),
{
    if s.len() == 0 {
        0
    } else {
        nonzero(s.drop_last()) + if s.last() == 0 {
            0nat
        } else {
            1nat
        }
    }
}

pub proof fn lemma_nonzero_update(s: Seq<u8>, i: int, v: u8)
    requires
        0 <= i < s.len(),
    ensures
        nonzero(s.update(i, v)) + (if s[i] == 0 {
            0nat
        } else {
            1nat
        }) == nonzero(s) + (if v == 0 {
            0nat
        } else {
            1nat
        }),
    decreases s.len(),
{
    let t = s.update(i, v);
    if i == s.len() - 1 {
        assert(t.drop_last() =~= s.drop_last());
    } else {
        assert(t.drop_last() =~= s.drop_last().update(i, v));
        lemma_nonzero_update(s.drop_last(), i, v);
    }
}

pub proof fn lemma_nonzero_none(s: Seq<u8>)
    requires
        forall|i: int| 0 <= i < s.len() ==> #[trigger] s[i] == 0,
    ensures
        nonzero(s) == 0,
    decreases s.len(),
{
    if s.len() > 0 {
        lemma_nonzero_none(s.drop_last());
    }
}

/// An inner node of up to 48 children: a 256-entry index from byte to
/// (1-based) slot, and a dense array of slots.
#[derive(Debug)]
pub struct Node48<V> {
    pub children_index: [u8; 256],
    pub children: [Node<V>; 48],
    pub count: u8,
}

impl<V> Node48<V> {
    /// The slot number stored for byte `b`: 0 for none, else the slot plus one.
    pub open spec fn index(&self, b: u8) -> int {
        self.children_index@[b as int] as int
    }

    pub open spec fn slot(&self, b: u8) -> Option<Node<V>> {
        if self.index(b) != 0 {
            Some(self.children@[self.index(b) - 1])
        } else {
            None
        }
    }

    /// Each byte names a used slot or none, no two bytes the same slot; the
    /// slots past `count` hold empty nodes.
    pub open spec fn wf(&self) -> bool {
        &&& self.count <= 48
        &&& forall|b: u8| #[trigger] self.index(b) <= self.count
        &&& forall|b1: u8, b2: u8|
            #[trigger] self.index(b1) != 0 && self.index(b1) == #[trigger] self.index(b2) ==> b1
                == b2
        &&& forall|i: int| self.count <= i < 48 ==> (#[trigger] self.children@[i]) is Empty
        &&& nonzero(self.children_index@) == self.count
    }

    /// Every used position holds a non-empty node, so `count` is also the
    /// number of non-empty children.
    pub open spec fn dense(&self) -> bool {
        forall|i: int| 0 <= i < self.count ==> !((#[trigger] self.children@[i]) is Empty)
    }

    /// `new` is this node with `c` put in the slot kept for byte `b`.
    pub open spec fn replaced(&self, new: Node48<V>, b: u8, c: Node<V>) -> bool {
        &&& new.count == self.count
        &&& new.children_index@ == self.children_index@
        &&& new.children@ == self.children@.update(self.index(b) - 1, c)
    }

    /// `new` is this node with a new slot for byte `b` holding `c`.
    pub open spec fn placed(&self, new: Node48<V>, b: u8, c: Node<V>) -> bool {
        &&& new.count == self.count + 1
        &&& new.children_index@ == self.children_index@.update(b as int, (self.count + 1) as u8)
        &&& new.children@ == self.children@.update(self.count as int, c)
    }

    pub fn new() -> (r: Node48<V>)
        ensures
            r.wf(),
            r.count == 0,
            forall|b: u8| r.slot(b) is None,
    {
        let r = Node48 { children_index: [0u8; 256], children: empty_children(), count: 0 };
        proof {
            lemma_nonzero_none(r.children_index@);
        }
        r
    }

    pub fn is_full(&self) -> (r: bool)
        ensures
            r == (self.count == 48),
    {
        self.count == 48
    }

    pub fn find_child(&self, seek: Seek<'_>) -> (r: Option<&Node<V>>)
        requires
            self.wf(),
        ensures
            r is Some <==> self.slot(seek.byte) is Some,
            r is Some ==> *r->Some_0 == self.slot(seek.byte)->Some_0,
    {
        let i = self.children_index[seek.byte as usize];
        if i == 0 {
            None
        } else {
            Some(&self.children[(i - 1) as usize])
        }
    }

    /// Every used position but `j` holds a non-empty node.
    pub open spec fn dense_except(&self, j: int) -> bool {
        forall|i: int| 0 <= i < self.count && i != j ==> !((#[trigger] self.children@[i]) is Empty)
    }

    /// Drops the slot for `seek.byte`, which holds an empty node: the last
    /// used slot moves into its place and its byte is pointed there.
    #[verifier::spinoff_prover]
    pub fn release(&mut self, seek: Seek<'_>)
        requires
            old(self).wf(),
            old(self).index(seek.byte) != 0,
            old(self).children@[old(self).index(seek.byte) - 1] is Empty,
        ensures
            final(self).wf(),
            final(self).count == old(self).count - 1,
            final(self).slot(seek.byte) is None,
            forall|x: u8| x != seek.byte ==> final(self).slot(x) == old(self).slot(x),
            old(self).dense_except(old(self).index(seek.byte) - 1) ==> final(self).dense(),
    {
        let count = self.count;
        proof {
            assert(old(self).index(seek.byte) <= old(self).count);
        }
        let s = (self.children_index[seek.byte as usize] - 1) as usize;
        let last = (count - 1) as usize;
        let mut c: usize = 0;
        while c < 256
            invariant
                c <= 256,
                self.count == count == old(self).count,
                self.children == old(self).children,
                s + 1 == old(self).index(seek.byte),
                count > 0,
                nonzero(self.children_index@) == count,
                forall|j: int|
                    0 <= j < c ==> #[trigger] self.children_index@[j]
                        == if old(self).children_index@[j] == count {
                        (s + 1) as u8
                    } else {
                        old(self).children_index@[j]
                    },
                forall|j: int|
                    c <= j < 256 ==> #[trigger] self.children_index@[j]
                        == old(self).children_index@[j],
            decreases 256 - c,
        {
            if self.children_index[c] == count {
                proof {
                    lemma_nonzero_update(self.children_index@, c as int, (s + 1) as u8);
                }
                self.children_index[c] = (s + 1) as u8;
            }
            c += 1;
        }
        proof {
            assert(self.children_index@[seek.byte as int] != 0);
            lemma_nonzero_update(self.children_index@, seek.byte as int, 0);
        }
        self.children_index[seek.byte as usize] = 0;
        if s < last {
            swap_unchecked(&mut self.children, s, last);
        }
        self.count -= 1;
        proof {
            let o = *old(self);
            let n = *self;
            let b = seek.byte;
            assert forall|x: u8| #[trigger] n.index(x) == if x == b {
                0
            } else if o.index(x) == count {
                s + 1
            } else {
                o.index(x)
            } by {
                assert(n.index(x) == n.children_index@[x as int]);
                assert(o.index(x) == o.children_index@[x as int]);
            }
            assert forall|x: u8| x != b && o.index(x) == count implies s < last by {
                if s == last {
                    assert(o.index(x) == o.index(b));
                }
            }
            assert forall|x: u8| x != b implies n.slot(x) == o.slot(x) by {
                if o.index(x) != 0 && o.index(x) != count {
                    assert(o.index(x) != o.index(b));
                }
            }
            assert forall|x: u8| #[trigger] n.index(x) <= n.count by {
                assert(o.index(x) <= o.count);
            }
            assert forall|b1: u8, b2: u8|
                #[trigger] n.index(b1) != 0 && n.index(b1) == #[trigger] n.index(b2) implies b1
                == b2 by {
                if o.index(b1) == count && o.index(b2) != count {
                    assert(o.index(b2) != o.index(b));
                } else if o.index(b2) == count && o.index(b1) != count {
                    assert(o.index(b1) != o.index(b));
                }
            }
        }
    }

    pub fn find_child_mut(&mut self, seek: Seek<'_>) -> (r: Option<&mut Node<V>>)
        requires
            old(self).wf(),
        ensures
            r is Some <==> old(self).slot(seek.byte) is Some,
            r is None ==> *final(self) == *old(self),
            r is Some ==> *r->Some_0 == old(self).slot(seek.byte)->Some_0 && old(self).replaced(
                *final(self),
                seek.byte,
                *final(r->Some_0),
            ),
    {
        let i = self.children_index[seek.byte as usize];
        if i == 0 {
            None
        } else {
            Some(&mut self.children[(i - 1) as usize])
        }
    }

    pub fn add_child(&mut self, seek: Seek<'_>, child: Node<V>) -> (r: &mut Node<V>)
        requires
            old(self).wf(),
            old(self).count < 48,
            old(self).slot(seek.byte) is None,
        ensures
            *r == child,
            final(self).count == old(self).count + 1,
            final(self).children_index@ == old(self).children_index@.update(
                seek.byte as int,
                (old(self).count + 1) as u8,
            ),
            final(self).children@ == old(self).children@.update(old(self).count as int, *final(r)),
            old(self).placed(*final(self), seek.byte, *final(r)),
    {
        let i = self.count;
        self.count += 1;
        self.children_index[seek.byte as usize] = i + 1;
        self.children[i as usize] = child;
        &mut self.children[i as usize]
    }

    /// Replacing the child in the slot for `b` keeps every other slot.
    pub proof fn lemma_replaced(&self, new: Node48<V>, b: u8, c: Node<V>)
        requires
            self.wf(),
            self.slot(b) is Some,
            self.replaced(new, b, c),
        ensures
            new.wf(),
            new.slot(b) == Some(c),
            forall|x: u8| x != b ==> new.slot(x) == self.slot(x),
            self.dense() && !(c is Empty) ==> new.dense(),
    {
        assert forall|x: u8| #[trigger] new.index(x) == self.index(x) by {}
        assert forall|x: u8| x != b implies new.slot(x) == self.slot(x) by {
            if self.index(x) != 0 {
                assert(self.index(x) != self.index(b));
            }
        }
    }

    /// A new slot for `b` keeps every other slot and the invariants.
    pub proof fn lemma_placed(&self, new: Node48<V>, b: u8, c: Node<V>)
        requires
            self.wf(),
            self.count < 48,
            self.slot(b) is None,
            self.placed(new, b, c),
        ensures
            new.wf(),
            new.slot(b) == Some(c),
            forall|x: u8| x != b ==> new.slot(x) == self.slot(x),
            self.dense() && !(c is Empty) ==> new.dense(),
    {
        lemma_nonzero_update(self.children_index@, b as int, (self.count + 1) as u8);
        assert forall|x: u8| x != b implies new.slot(x) == self.slot(x) by {
            assert(new.index(x) == self.index(x));
        }
        assert forall|b1: u8, b2: u8|
            #[trigger] new.index(b1) != 0 && new.index(b1) == #[trigger] new.index(b2) implies b1
            == b2 by {
            if b1 != b && b2 != b {
                assert(self.index(b1) == new.index(b1));
                assert(self.index(b2) == new.index(b2));
            } else if b1 == b && b2 != b {
                assert(self.index(b2) <= self.count);
            } else if b2 == b && b1 != b {
                assert(self.index(b1) <= self.count);
            }
        }
        assert forall|x: u8| #[trigger] new.index(x) <= new.count by {
            if x != b {
                assert(self.index(x) <= self.count);
            }
        }
    }

    pub fn grow(self) -> (r: Node256<V>)
        requires
            self.wf(),
        ensures
            r.wf(),
            forall|b: u8| r.slot(b) == live(self.slot(b)),
            self.dense() ==> r.count == self.count,
    {
        let mut src = self;
        let mut node256 = Node256::new();
        let mut i: usize = 0;
        while i < 256
            invariant
                self.wf(),
                i <= 256,
                src.children_index == self.children_index,
                forall|b: u8|
                    b >= i && #[trigger] self.index(b) != 0 ==> src.children@[self.index(b) - 1]
                        == self.children@[self.index(b) - 1],
                node256.wf(),
                self.dense() ==> node256.count == nonzero(self.children_index@.take(i as int)),
                forall|b: u8|
                    #[trigger] node256.slot(b) == if b < i {
                        live(self.slot(b))
                    } else {
                        None
                    },
            decreases 256 - i,
        {
            let byte = i as u8;
            let s = src.children_index[i];
            proof {
                let t = self.children_index@;
                assert(t.take(i + 1).drop_last() =~= t.take(i as int));
                assert(t.take(i + 1).last() == s);
                assert(self.index(byte) == s);
                assert(self.index(byte) <= self.count);
            }
            if s != 0 {
                let mut child = Node::Empty;
                std::mem::swap(&mut child, &mut src.children[(s - 1) as usize]);
                proof {
                    assert(self.index(byte) == s);
                    assert forall|b: u8|
                        b >= i + 1 && #[trigger] self.index(b) != 0 implies src.children@[self.index(b)
                        - 1] == self.children@[self.index(b) - 1] by {
                        assert(self.index(b) != self.index(byte));
                    }
                }
                if !child.is_empty() {
                    let ghost before = node256;
                    let keys = [byte];
                    node256.add_child(Seek { byte, idx: 0, key: &keys }, child);
                    proof {
                        before.lemma_placed(node256, byte, self.children@[s - 1]);
                    }
                }
            }
            i += 1;
        }
        proof {
            assert(self.children_index@.take(256) =~= self.children_index@);
        }
        node256
    }
}

/// Walks the children of a Node48 in ascending byte order, handing each out.
pub struct Node48IntoIter<V> {
    pub node48: Node48<V>,
    pub index: usize,
}

impl<V> Node48IntoIter<V> {
    pub fn new(node48: Node48<V>) -> (r: Node48IntoIter<V>)
        ensures
            r.node48 == node48,
            r.index == 0,
    {
        Node48IntoIter { node48, index: 0 }
    }

    /// The next byte that has a child slot, and the child, taken out of the
    /// node.
    pub fn next(&mut self) -> (r: Option<(u8, Node<V>)>)
        requires
            old(self).index <= 256,
            old(self).node48.wf(),
        ensures
            final(self).index <= 256,
            final(self).node48.wf(),
            final(self).node48.children_index == old(self).node48.children_index,
            r is None ==> final(self).index == 256 && final(self).node48 == old(self).node48
                && forall|b: u8| old(self).index <= b ==> old(self).node48.slot(b) is None,
            r matches Some((b, c)) ==> {
                &&& old(self).index <= b
                &&& final(self).index == b + 1
                &&& old(self).node48.slot(b) == Some(c)
                &&& old(self).node48.replaced(final(self).node48, b, Node::Empty)
                &&& forall|x: u8| old(self).index <= x < b ==> old(self).node48.slot(x) is None
            },
    {
        while self.index < 256
            invariant
                old(self).index <= self.index <= 256,
                self.node48 == old(self).node48,
                self.node48.wf(),
                forall|x: u8| old(self).index <= x < self.index ==> old(self).node48.slot(x) is None,
            decreases 256 - self.index,
        {
            let b = self.index;
            self.index += 1;
            let ci = self.node48.children_index[b];
            proof {
                assert(self.node48.index(b as u8) == ci);
                assert(self.node48.index(b as u8) <= self.node48.count);
            }
            if ci != 0 {
                let mut child = Node::Empty;
                std::mem::swap(&mut child, &mut self.node48.children[(ci - 1) as usize]);
                proof {
                    old(self).node48.lemma_replaced(self.node48, b as u8, Node::Empty);
                }
                return Some((b as u8, child));
            }
        }
        None
    }
}

/// Walks the children of a Node48 in ascending byte order.
pub struct Node48Iter<'a, V> {
    pub node48: &'a Node48<V>,
    pub index: usize,
}

impl<'a, V> Node48Iter<'a, V> {
    pub fn new(node48: &'a Node48<V>) -> (r: Node48Iter<'a, V>)
        ensures
            *r.node48 == *node48,
            r.index == 0,
    {
        Node48Iter { node48, index: 0 }
    }

    /// The next byte that has a child slot, and the child.
    pub fn next(&mut self) -> (r: Option<(u8, &'a Node<V>)>)
        requires
            old(self).index <= 256,
            old(self).node48.wf(),
        ensures
            final(self).node48 == old(self).node48,
            final(self).index <= 256,
            r is None ==> final(self).index == 256 && forall|b: u8|
                old(self).index <= b ==> old(self).node48.slot(b) is None,
            r matches Some((b, c)) ==> {
                &&& old(self).index <= b
                &&& final(self).index == b + 1
                &&& old(self).node48.slot(b) == Some(*c)
                &&& forall|x: u8| old(self).index <= x < b ==> old(self).node48.slot(x) is None
            },
    {
        while self.index < 256
            invariant
                old(self).index <= self.index <= 256,
                self.node48 == old(self).node48,
                self.node48.wf(),
                forall|x: u8| old(self).index <= x < self.index ==> old(self).node48.slot(x) is None,
            decreases 256 - self.index,
        {
            let b = self.index;
            self.index += 1;
            let ci = self.node48.children_index[b];
            proof {
                assert(self.node48.index(b as u8) == ci);
                assert(self.node48.index(b as u8) <= self.node48.count);
            }
            if ci != 0 {
                return Some((b as u8, &self.node48.children[(ci - 1) as usize]));
            }
        }
        None
    }
}

} // verus!
