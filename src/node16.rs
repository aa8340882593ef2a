use vstd::prelude::*;

use crate::node::empty_children;
use crate::util::swap_unchecked;
use crate::{Node, Node48, Seek};

verus! {

broadcast use vstd::array::group_array_axioms;

/// An inner node of up to sixteen children whose bytes are kept in strictly
/// ascending order and found by binary search.
#[derive(Debug)]
pub struct Node16<V> {
    pub key: [u8; 16],
    pub children: [Node<V>; 16],
    pub count: u8,
}

impl<V> Node16<V> {
    pub open spec fn has(&self, b: u8) -> bool {
        exists|i: int| 0 <= i < self.count && #[trigger] self.key@[i] == b
    }

    pub open spec fn index_of(&self, b: u8) -> int {
        choose|i: int| 0 <= i < self.count && #[trigger] self.key@[i] == b
    }

    pub open spec fn slot(&self, b: u8) -> Option<Node<V>> {
        if self.has(b) {
            Some(self.children@[self.index_of(b)])
        } else {
            None
        }
    }

    /// Bytes strictly ascending; slots past `count` hold empty nodes.
    pub open spec fn wf(&self) -> bool {
        &&& self.count <= 16
        &&& forall|i: int, j: int|
            0 <= i < j < self.count ==> #[trigger] self.key@[i] < #[trigger] self.key@[j]
        &&& forall|i: int| self.count <= i < 16 ==> (#[trigger] self.children@[i]) is Empty
    }

    /// Every used position holds a non-empty node, so `count` is also the
    /// number of non-empty children.
    pub open spec fn dense(&self) -> bool {
        forall|i: int| 0 <= i < self.count ==> !((#[trigger] self.children@[i]) is Empty)
    }

    /// `new` is this node with `c` put in the slot kept for byte `b`.
    pub open spec fn replaced(&self, new: Node16<V>, b: u8, c: Node<V>) -> bool {
        &&& new.count == self.count
        &&& new.key@ == self.key@
        &&& new.children@ == self.children@.update(self.index_of(b), c)
    }

    /// `new` is this node with a slot for byte `b` holding `c` inserted at
    /// position `p`, the later ones moved one place up.
    pub open spec fn placed_at(&self, new: Node16<V>, b: u8, c: Node<V>, p: int) -> bool {
        &&& self.bound_at(b, p)
        &&& new.count == self.count + 1
        &&& forall|k: int| 0 <= k < p ==> #[trigger] new.key@[k] == self.key@[k]
        &&& forall|k: int| 0 <= k < p ==> #[trigger] new.children@[k] == self.children@[k]
        &&& new.key@[p] == b
        &&& new.children@[p] == c
        &&& forall|k: int| p < k <= self.count ==> #[trigger] new.key@[k] == self.key@[k - 1]
        &&& forall|k: int|
            p < k <= self.count ==> #[trigger] new.children@[k] == self.children@[k - 1]
        &&& forall|k: int| self.count < k < 16 ==> #[trigger] new.children@[k] == self.children@[k]
    }

    /// The position at which byte `b` belongs among the stored bytes.
    pub open spec fn rank(&self, b: u8) -> int {
        choose|p: int| self.bound_at(b, p)
    }

    pub open spec fn bound_at(&self, b: u8, p: int) -> bool {
        &&& 0 <= p <= self.count
        &&& forall|k: int| 0 <= k < p ==> #[trigger] self.key@[k] < b
        &&& forall|k: int| p <= k < self.count ==> #[trigger] self.key@[k] > b
    }

    proof fn lemma_rank(&self, b: u8, p: int)
        requires
            self.bound_at(b, p),
        ensures
            self.rank(b) == p,
    {
        let q = self.rank(b);
        assert(self.bound_at(b, q));
        if q < p {
            assert(self.key@[q] < b);
        } else if p < q {
            assert(self.key@[p] < b);
        }
    }

    proof fn lemma_slot_at(&self, i: int)
        requires
            self.wf(),
            0 <= i < self.count,
        ensures
            self.has(self.key@[i]),
            self.index_of(self.key@[i]) == i,
            self.slot(self.key@[i]) == Some(self.children@[i]),
    {
        let b = self.key@[i];
        assert(self.has(b));
        let j = self.index_of(b);
        if j < i {
            assert(self.key@[j] < self.key@[i]);
        } else if j > i {
            assert(self.key@[i] < self.key@[j]);
        }
    }

    pub fn new() -> (r: Node16<V>)
        ensures
            r.wf(),
            r.count == 0,
            forall|b: u8| r.slot(b) is None,
    {
        Node16 { key: [0u8; 16], children: empty_children(), count: 0 }
    }

    pub fn is_full(&self) -> (r: bool)
        ensures
            r == (self.count == 16),
    {
        self.count == 16
    }

    /// The number of stored bytes below `byte`.
    fn lower_bound(&self, byte: u8) -> (r: usize)
        requires
            self.wf(),
        ensures
            r <= self.count,
            forall|k: int| 0 <= k < r ==> #[trigger] self.key@[k] < byte,
            forall|k: int| r <= k < self.count ==> #[trigger] self.key@[k] >= byte,
    {
        let mut lo: usize = 0;
        let mut hi: usize = self.count as usize;
        while lo < hi
            invariant
                self.wf(),
                lo <= hi <= self.count,
                forall|k: int| 0 <= k < lo ==> #[trigger] self.key@[k] < byte,
                forall|k: int| hi <= k < self.count ==> #[trigger] self.key@[k] >= byte,
            decreases hi - lo,
        {
            let mid = lo + (hi - lo) / 2;
            if self.key[mid] < byte {
                lo = mid + 1;
            } else {
                hi = mid;
            }
        }
        lo
    }

    fn index_of_byte(&self, byte: u8) -> (r: Option<usize>)
        requires
            self.wf(),
        ensures
            r is Some <==> self.has(byte),
            r is Some ==> r->Some_0 == self.index_of(byte),
    {
        let p = self.lower_bound(byte);
        if p < self.count as usize && self.key[p] == byte {
            proof {
                self.lemma_slot_at(p as int);
            }
            Some(p)
        } else {
            proof {
                if self.has(byte) {
                    let j = self.index_of(byte);
                    assert(self.key@[j] == byte);
                    if j >= p {
                        if j > p {
                            assert(self.key@[p as int] < self.key@[j]);
                        }
                    }
                }
            }
            None
        }
    }

    pub fn find_child(&self, seek: Seek<'_>) -> (r: Option<&Node<V>>)
        requires
            self.wf(),
        ensures
            r is Some <==> self.slot(seek.byte) is Some,
            r is Some ==> *r->Some_0 == self.slot(seek.byte)->Some_0,
    {
        match self.index_of_byte(seek.byte) {
            Some(i) => Some(&self.children[i]),
            None => None,
        }
    }

    /// Every used position but `j` holds a non-empty node.
    pub open spec fn dense_except(&self, j: int) -> bool {
        forall|i: int| 0 <= i < self.count && i != j ==> !((#[trigger] self.children@[i]) is Empty)
    }

    /// Drops the slot for `seek.byte`, which holds an empty node, moving the
    /// later entries one place down.
    pub fn release(&mut self, seek: Seek<'_>)
        requires
            old(self).wf(),
            old(self).has(seek.byte),
            old(self).children@[old(self).index_of(seek.byte)] is Empty,
        ensures
            final(self).wf(),
            final(self).count == old(self).count - 1,
            final(self).slot(seek.byte) is None,
            forall|x: u8| x != seek.byte ==> final(self).slot(x) == old(self).slot(x),
            old(self).dense_except(old(self).index_of(seek.byte)) ==> final(self).dense(),
    {
        let i = match self.index_of_byte(seek.byte) {
            Some(i) => i,
            None => return,
        };
        let c = self.count as usize;
        let mut k: usize = i;
        while k + 1 < c
            invariant
                i <= k < c <= 16,
                c == old(self).count,
                i == old(self).index_of(seek.byte),
                self.count == old(self).count,
                forall|p: int| 0 <= p < i ==> #[trigger] self.key@[p] == old(self).key@[p],
                forall|p: int| 0 <= p < i ==> #[trigger] self.children@[p] == old(self).children@[p],
                forall|p: int| i <= p < k ==> #[trigger] self.key@[p] == old(self).key@[p + 1],
                forall|p: int|
                    i <= p < k ==> #[trigger] self.children@[p] == old(self).children@[p + 1],
                self.key@[k as int] == old(self).key@[i as int],
                self.children@[k as int] == old(self).children@[i as int],
                forall|p: int| k < p < 16 ==> #[trigger] self.key@[p] == old(self).key@[p],
                forall|p: int| k < p < 16 ==> #[trigger] self.children@[p] == old(self).children@[p],
            decreases c - k,
        {
            swap_unchecked(&mut self.key, k, k + 1);
            swap_unchecked(&mut self.children, k, k + 1);
            k += 1;
        }
        self.count -= 1;
        proof {
            let o = *old(self);
            let n = *self;
            o.lemma_slot_at(i as int);
            assert forall|a: int, b: int| 0 <= a < b < n.count implies #[trigger] n.key@[a] < #[trigger] n.key@[b] by {
                let oa = if a < i { a } else { a + 1 };
                let ob = if b < i { b } else { b + 1 };
                assert(n.key@[a] == o.key@[oa]);
                assert(n.key@[b] == o.key@[ob]);
                assert(o.key@[oa] != o.key@[ob] || oa == ob);
            }
            assert forall|x: u8| x != seek.byte implies n.slot(x) == o.slot(x) by {
                if o.has(x) {
                    let j = o.index_of(x);
                    o.lemma_slot_at(j);
                    if j < i {
                        n.lemma_slot_at(j);
                    } else {
                        assert(j != i);
                        n.lemma_slot_at(j - 1);
                    }
                } else if n.has(x) {
                    let q = n.index_of(x);
                    if q < i {
                        assert(o.key@[q] == x);
                    } else {
                        assert(o.key@[q + 1] == x);
                    }
                }
            }
            if n.has(seek.byte) {
                let q = n.index_of(seek.byte);
                if q < i {
                    assert(o.key@[q] == seek.byte);
                    assert(o.key@[q] != o.key@[i as int]);
                } else {
                    assert(o.key@[q + 1] == seek.byte);
                    assert(o.key@[i as int] != o.key@[q + 1]);
                }
            }
        }
    }

    pub fn find_child_mut(&mut self, seek: Seek<'_>) -> (r: Option<&mut Node<V>>)
        requires
            old(self).wf(),
        ensures
            r is Some <==> old(self).slot(seek.byte) is Some,
            r is None ==> *final(self) == *old(self),
            r is Some ==> *r->Some_0 == old(self).slot(seek.byte)->Some_0 && old(self).replaced(
                *final(self),
                seek.byte,
                *final(r->Some_0),
            ),
    {
        match self.index_of_byte(seek.byte) {
            Some(i) => Some(&mut self.children[i]),
            None => None,
        }
    }

    /// Moves the entries at `index..count` one place up, bringing the unused
    /// entry at `count` down to `index`.
    fn move_items_right_of(&mut self, index: usize)
        requires
            index <= old(self).count < 16,
        ensures
            final(self).count == old(self).count,
            forall|k: int| 0 <= k < index ==> #[trigger] final(self).key@[k] == old(self).key@[k],
            forall|k: int|
                0 <= k < index ==> #[trigger] final(self).children@[k] == old(self).children@[k],
            final(self).children@[index as int] == old(self).children@[old(self).count as int],
            forall|k: int|
                index < k <= old(self).count ==> #[trigger] final(self).key@[k] == old(
                    self,
                ).key@[k - 1],
            forall|k: int|
                index < k <= old(self).count ==> #[trigger] final(self).children@[k] == old(
                    self,
                ).children@[k - 1],
            forall|k: int|
                old(self).count < k < 16 ==> #[trigger] final(self).children@[k] == old(
                    self,
                ).children@[k],
    {
        let c = self.count as usize;
        let mut i: usize = c;
        while i > index
            invariant
                index <= i <= c,
                c == old(self).count < 16,
                self.count == old(self).count,
                forall|k: int| 0 <= k < i ==> #[trigger] self.key@[k] == old(self).key@[k],
                forall|k: int| 0 <= k < i ==> #[trigger] self.children@[k] == old(self).children@[k],
                self.children@[i as int] == old(self).children@[c as int],
                forall|k: int| i < k <= c ==> #[trigger] self.key@[k] == old(self).key@[k - 1],
                forall|k: int|
                    i < k <= c ==> #[trigger] self.children@[k] == old(self).children@[k - 1],
                forall|k: int| c < k < 16 ==> #[trigger] self.children@[k] == old(self).children@[k],
            decreases i,
        {
            i -= 1;
            swap_unchecked(&mut self.key, i, i + 1);
            swap_unchecked(&mut self.children, i, i + 1);
        }
    }

    pub fn add_child(&mut self, seek: Seek<'_>, child: Node<V>) -> (r: &mut Node<V>)
        requires
            old(self).wf(),
            old(self).count < 16,
            old(self).slot(seek.byte) is None,
        ensures
            *r == child,
            old(self).placed_at(*final(self), seek.byte, *final(r), old(self).rank(seek.byte)),
            final(self).wf(),
            final(self).slot(seek.byte) == Some(*final(r)),
            forall|x: u8| x != seek.byte ==> final(self).slot(x) == old(self).slot(x),
    {
        let index = self.lower_bound(seek.byte);
        proof {
            assert forall|k: int| index <= k < self.count implies #[trigger] self.key@[k]
                > seek.byte by {
                if self.key@[k] == seek.byte {
                    assert(self.has(seek.byte));
                }
            }
        }
        self.move_items_right_of(index);
        self.key[index] = seek.byte;
        self.children[index] = child;
        self.count += 1;
        proof {
            old(self).lemma_rank(seek.byte, index as int);
            assert forall|new: Node16<V>, c: Node<V>| #[trigger]
                old(self).placed_at(new, seek.byte, c, index as int) implies {
                &&& new.wf()
                &&& new.slot(seek.byte) == Some(c)
                &&& forall|x: u8| x != seek.byte ==> new.slot(x) == old(self).slot(x)
            } by {
                old(self).lemma_placed(new, seek.byte, c, index as int);
            }
        }
        &mut self.children[index]
    }

    /// Replacing the child in the slot for `b` keeps every other slot.
    pub proof fn lemma_replaced(&self, new: Node16<V>, b: u8, c: Node<V>)
        requires
            self.wf(),
            self.has(b),
            self.replaced(new, b, c),
        ensures
            new.wf(),
            new.slot(b) == Some(c),
            forall|x: u8| x != b ==> new.slot(x) == self.slot(x),
            self.dense() && !(c is Empty) ==> new.dense(),
    {
        let i = self.index_of(b);
        assert forall|x: u8| x != b implies new.slot(x) == self.slot(x) by {
            if self.has(x) {
                let j = self.index_of(x);
                self.lemma_slot_at(j);
                new.lemma_slot_at(j);
            } else {
                assert(!new.has(x));
            }
        }
        self.lemma_slot_at(i);
        new.lemma_slot_at(i);
    }

    /// A new slot for `b` keeps every other slot and the invariants.
    pub proof fn lemma_placed(&self, new: Node16<V>, b: u8, c: Node<V>, p: int)
        requires
            self.wf(),
            self.count < 16,
            self.placed_at(new, b, c, p),
        ensures
            new.wf(),
            new.slot(b) == Some(c),
            forall|x: u8| x != b ==> new.slot(x) == self.slot(x),
            self.dense() && !(c is Empty) ==> new.dense(),
    {
        assert forall|i: int, j: int| 0 <= i < j < new.count implies #[trigger] new.key@[i]
            < #[trigger] new.key@[j] by {
            if i < p {
                if j < p {
                    assert(self.key@[i] < self.key@[j]);
                } else if j > p {
                    assert(self.key@[j - 1] > b);
                }
            } else if i == p {
                assert(self.key@[j - 1] > b);
            } else {
                assert(self.key@[i - 1] < self.key@[j - 1]);
            }
        }
        assert forall|x: u8| x != b implies new.slot(x) == self.slot(x) by {
            if self.has(x) {
                let j = self.index_of(x);
                self.lemma_slot_at(j);
                if j < p {
                    new.lemma_slot_at(j);
                } else {
                    new.lemma_slot_at(j + 1);
                }
            } else {
                if new.has(x) {
                    let k = new.index_of(x);
                    if k < p {
                        assert(self.key@[k] == x);
                    } else if k > p {
                        assert(self.key@[k - 1] == x);
                    }
                }
            }
        }
        new.lemma_slot_at(p);
    }

    #[verifier::spinoff_prover]
    pub fn grow(self) -> (r: Node48<V>)
        requires
            self.wf(),
        ensures
            r.wf(),
            r.count == self.count,
            forall|b: u8| r.slot(b) == self.slot(b),
            self.dense() ==> r.dense(),
            forall|i: int|
                0 <= i < self.count ==> r.children_index@[#[trigger] self.key@[i] as int] == i + 1
                    && r.children@[i] == self.children@[i],
            forall|b: u8| !self.has(b) ==> r.children_index@[b as int] == 0,
    {
        let mut src = self;
        let mut node48 = Node48::new();
        let n = src.count as usize;
        let mut i: usize = 0;
        while i < n
            invariant
                self.wf(),
                n == self.count,
                i <= n,
                src.key == self.key,
                src.count == self.count,
                forall|k: int| i <= k < 16 ==> #[trigger] src.children@[k] == self.children@[k],
                node48.wf(),
                node48.count == i,
                self.dense() ==> node48.dense(),
                forall|j: int|
                    0 <= j < i ==> node48.children_index@[#[trigger] self.key@[j] as int] == j + 1
                        && node48.children@[j] == self.children@[j],
                forall|b: u8|
                    #[trigger] node48.slot(b) == if self.has(b) && self.index_of(b) < i {
                        self.slot(b)
                    } else {
                        None
                    },
            decreases n - i,
        {
            let mut child = Node::Empty;
            std::mem::swap(&mut child, &mut src.children[i]);
            let byte = src.key[i];
            proof {
                self.lemma_slot_at(i as int);
            }
            let ghost before = node48;
            let keys = src.key;
            node48.add_child(Seek { byte, idx: i, key: &keys }, child);
            proof {
                before.lemma_placed(node48, byte, self.children@[i as int]);
                assert forall|j: int| 0 <= j < i + 1 implies node48.children_index@[
                    #[trigger] self.key@[j] as int] == j + 1 && node48.children@[j]
                    == self.children@[j] by {
                    if j < i {
                        assert(self.key@[j] < self.key@[i as int]);
                    }
                }
                assert forall|b: u8|
                    #[trigger] node48.slot(b) == if self.has(b) && self.index_of(b) < i + 1 {
                        self.slot(b)
                    } else {
                        None
                    } by {
                    if b != byte && self.has(b) {
                        self.lemma_slot_at(self.index_of(b));
                    }
                }
            }
            i += 1;
        }
        proof {
            assert forall|b: u8| !self.has(b) implies node48.children_index@[b as int] == 0 by {
                assert(node48.slot(b) is None);
                assert(node48.index(b) == node48.children_index@[b as int]);
            }
        }
        node48
    }
}

impl<V> Node16<V> {
    pub fn iter(&self) -> (r: Node16Iter<'_, V>)
        ensures
            *r.node16 == *self,
            r.index == 0,
    {
        Node16Iter::new(self)
    }
}

/// Walks the children of a Node16 in ascending byte order.
pub struct Node16Iter<'a, V> {
    pub node16: &'a Node16<V>,
    pub index: usize,
}

impl<'a, V> Node16Iter<'a, V> {
    pub fn new(node16: &'a Node16<V>) -> (r: Self)
        ensures
            *r.node16 == *node16,
            r.index == 0,
    {
        Self { node16, index: 0 }
    }

    /// The next byte and the child below it.
    pub fn next(&mut self) -> (r: Option<(u8, &'a Node<V>)>)
        requires
            old(self).index <= old(self).node16.count <= 16,
        ensures
            final(self).node16 == old(self).node16,
            old(self).index == old(self).node16.count ==> r is None && final(self).index
                == old(self).index,
            old(self).index < old(self).node16.count ==> {
                &&& r is Some
                &&& r->Some_0.0 == old(self).node16.key@[old(self).index as int]
                &&& *r->Some_0.1 == old(self).node16.children@[old(self).index as int]
                &&& final(self).index == old(self).index + 1
            },
    {
        if self.index == self.node16.count as usize {
            return None;
        }
        let idx = self.node16.key[self.index];
        let child = &self.node16.children[self.index];
        self.index += 1;
        Some((idx, child))
    }
}

} // verus!
