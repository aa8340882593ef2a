use vstd::prelude::*;

use crate::node::live;
use crate::{BoxNode, Leaf, Node, Node4, Seek};

verus! {

/// The part of `key` from position `idx` on.
pub open spec fn suffix(key: Seq<u8>, idx: int) -> Seq<u8> {
    key.subrange(idx, key.len() as int)
}

proof fn lemma_suffix_step(key: Seq<u8>, idx: int, k: Seq<u8>)
    requires
        0 <= idx < key.len(),
        k.len() > 0,
    ensures
        (k == suffix(key, idx)) <==> (k[0] == key[idx] && k.drop_first() == suffix(key, idx + 1)),
{
    if k[0] == key[idx] && k.drop_first() == suffix(key, idx + 1) {
        assert forall|i: int| 0 <= i < k.len() implies k[i] == suffix(key, idx)[i] by {
            if i > 0 {
                assert(k[i] == k.drop_first()[i - 1]);
            }
        }
        assert(k =~= suffix(key, idx));
    }
    if k == suffix(key, idx) {
        assert(k.drop_first() =~= suffix(key, idx + 1));
    }
}

/// What the child of `n` below byte `b` holds under `q`.
pub open spec fn lookup_under<V>(n: Node<V>, b: u8, q: Seq<u8>) -> Option<V> {
    match n.child(b) {
        Some(c) => c.lookup(q),
        None => None,
    }
}

/// A node whose children stay and whose value becomes `w` maps the key that
/// ends here to `w` and keeps every other key.
proof fn lemma_edit_here<V>(before: Node<V>, after: Node<V>, key: Seq<u8>, idx: int, w: Option<V>)
    requires
        idx == key.len(),
        after.value() == w,
        forall|x: u8| #[trigger] after.child(x) == before.child(x),
    ensures
        forall|k: Seq<u8>| #[trigger]
            after.lookup(k) == if k == suffix(key, idx) {
                w
            } else {
                before.lookup(k)
            },
{
    assert(suffix(key, idx) =~= Seq::<u8>::empty());
    assert forall|k: Seq<u8>| #[trigger]
        after.lookup(k) == if k == suffix(key, idx) {
            w
        } else {
            before.lookup(k)
        } by {
        if k.len() == 0 {
            assert(k =~= suffix(key, idx));
        }
    }
}

/// A node whose value and other children stay, and whose child below
/// `key[idx]` now maps `key[idx + 1..]` to `w`, maps `key[idx..]` to `w` and
/// keeps every other key.
proof fn lemma_edit_below<V>(before: Node<V>, after: Node<V>, key: Seq<u8>, idx: int, w: Option<V>)
    requires
        0 <= idx < key.len(),
        after.value() == before.value(),
        forall|x: u8| x != key[idx] ==> #[trigger] after.child(x) == before.child(x),
        forall|q: Seq<u8>| #[trigger]
            lookup_under(after, key[idx], q) == if q == suffix(key, idx + 1) {
                w
            } else {
                lookup_under(before, key[idx], q)
            },
    ensures
        forall|k: Seq<u8>| #[trigger]
            after.lookup(k) == if k == suffix(key, idx) {
                w
            } else {
                before.lookup(k)
            },
{
    assert forall|k: Seq<u8>| #[trigger]
        after.lookup(k) == if k == suffix(key, idx) {
            w
        } else {
            before.lookup(k)
        } by {
        if k.len() > 0 {
            lemma_suffix_step(key, idx, k);
            assert(after.lookup(k) == lookup_under(after, k[0], k.drop_first()));
            assert(before.lookup(k) == lookup_under(before, k[0], k.drop_first()));
        }
    }
}

/// Stores `val` under `key[idx..]` in the subtree at `node`, creating the
/// inner nodes on the way, and hands back the value it replaces.
fn insert_below<V>(node: &mut Node<V>, key: &[u8], idx: usize, val: V) -> (r: Option<V>)
    requires
        old(node).wf(),
        idx <= key@.len(),
    ensures
        final(node).wf(),
        old(node).dense() ==> final(node).dense(),
        old(node).dense() && old(node).snug() ==> final(node).snug(),
        !(*final(node) is Empty),
        r == old(node).lookup(suffix(key@, idx as int)),
        forall|k: Seq<u8>|
            #[trigger] final(node).lookup(k) == if k == suffix(key@, idx as int) {
                Some(val)
            } else {
                old(node).lookup(k)
            },
    decreases key@.len() - idx,
{
    let ghost before = *node;
    proof {
        before.lemma_wf_step();
        before.lemma_dense_step();
        before.lemma_snug_step();
    }
    if idx == key.len() {
        let r = node.insert_in_leaf(val);
        proof {
            let after = *node;
            after.lemma_wf_step();
            after.lemma_dense_step();
            after.lemma_snug_step();
            lemma_edit_here(before, after, key@, idx as int, Some(val));
        }
        return r;
    }
    let seek = Seek::at(key, idx);
    proof {
        lemma_suffix_step(key@, idx as int, suffix(key@, idx as int));
        assert(before.lookup(suffix(key@, idx as int)) == lookup_under(
            before,
            seek.byte,
            suffix(key@, idx as int + 1),
        ));
    }
    match node.find_child_mut(seek) {
        Some(child) => {
            let ghost c0 = *child;
            let r = insert_below(child, key, idx + 1, val);
            proof {
                let after = *node;
                if c0 is Empty {
                    c0.lemma_empty();
                }
                after.lemma_wf_step();
                after.lemma_dense_step();
                after.lemma_snug_step();
                lemma_edit_below(before, after, key@, idx as int, Some(val));
            }
            r
        },
        None => {
            if idx + 1 == key.len() {
                let _ = node.add_child(seek, Node::Leaf(Leaf::new(val)));
                proof {
                    let after = *node;
                    let leaf = after.slot(seek.byte)->Some_0;
                    after.lemma_wf_step();
                    after.lemma_dense_step();
                    after.lemma_snug_step();
                    assert(leaf.value() == Some(val));
                    leaf.lemma_snug_step();
                    if before.snug() {
                        assert forall|x: u8| #[trigger] after.slot(x) is Some implies after.slot(
                            x,
                        )->Some_0.snug() by {
                            let c = after.slot(x)->Some_0;
                            if c is Empty {
                                c.lemma_empty();
                            } else if x != seek.byte {
                                assert(before.slot(x) == Some(c));
                            }
                        }
                    }
                    assert(suffix(key@, idx + 1) =~= Seq::<u8>::empty());
                    assert forall|q: Seq<u8>| #[trigger]
                        lookup_under(after, seek.byte, q) == if q == suffix(key@, idx + 1) {
                            Some(val)
                        } else {
                            lookup_under(before, seek.byte, q)
                        } by {
                        if q.len() > 0 {
                            assert(leaf.child(q[0]) is None);
                        } else {
                            assert(q =~= suffix(key@, idx + 1));
                        }
                    }
                    lemma_edit_below(before, after, key@, idx as int, Some(val));
                }
                None
            } else {
                let child = node.add_child(
                    seek,
                    Node::BoxNode(BoxNode::Node4(Box::new(Node4::new()))),
                );
                let ghost c0 = *child;
                proof {
                    c0.lemma_wf_step();
                    c0.lemma_snug_step();
                    assert forall|k: Seq<u8>| #[trigger] c0.lookup(k) is None by {
                        if k.len() > 0 {
                            c0.lemma_lookup_step(k);
                        }
                    }
                }
                let r = insert_below(child, key, idx + 1, val);
                proof {
                    let after = *node;
                    after.lemma_wf_step();
                    after.lemma_dense_step();
                    after.lemma_snug_step();
                    lemma_edit_below(before, after, key@, idx as int, Some(val));
                }
                r
            }
        },
    }
}

/// Takes the value stored under `key[idx..]` out of the subtree at `node`.
/// A leaf that becomes empty gives up its slot in its parent; the inner nodes
/// on the way stay in place.
fn remove_below<V>(node: &mut Node<V>, key: &[u8], idx: usize) -> (r: Option<V>)
    requires
        old(node).wf(),
        idx <= key@.len(),
    ensures
        final(node).wf(),
        old(node).dense() ==> final(node).dense(),
        r == old(node).lookup(suffix(key@, idx as int)),
        forall|k: Seq<u8>|
            #[trigger] final(node).lookup(k) == if k == suffix(key@, idx as int) {
                None
            } else {
                old(node).lookup(k)
            },
    decreases key@.len() - idx,
{
    let ghost before = *node;
    proof {
        before.lemma_wf_step();
        before.lemma_dense_step();
    }
    if idx == key.len() {
        let r = node.remove_leaf();
        proof {
            let after = *node;
            after.lemma_wf_step();
            after.lemma_dense_step();
            lemma_edit_here(before, after, key@, idx as int, None);
        }
        return r;
    }
    let seek = Seek::at(key, idx);
    proof {
        lemma_suffix_step(key@, idx as int, suffix(key@, idx as int));
        assert(before.lookup(suffix(key@, idx as int)) == lookup_under(
            before,
            seek.byte,
            suffix(key@, idx as int + 1),
        ));
    }
    match node.find_child_mut(seek) {
        None => {
            proof {
                assert forall|q: Seq<u8>| #[trigger]
                    lookup_under(before, seek.byte, q) == if q == suffix(key@, idx + 1) {
                        None
                    } else {
                        lookup_under(before, seek.byte, q)
                    } by {}
                lemma_edit_below(before, before, key@, idx as int, None);
            }
            None
        },
        Some(child) => {
            let ghost c0 = *child;
            let r = remove_below(child, key, idx + 1);
            let ghost c1 = *child;
            node.release_child(seek);
            proof {
                let after = *node;
                if c0 is Empty {
                    c0.lemma_empty();
                }
                if c1 is Empty {
                    c1.lemma_empty();
                }
                let s = after.slot(seek.byte);
                if s is Some && s->Some_0 is Empty {
                    s->Some_0.lemma_empty();
                }
                after.lemma_wf_step();
                if before.dense() {
                    assert forall|x: u8| #[trigger] after.slot(x) is Some implies after.slot(
                        x,
                    )->Some_0.dense() by {
                        if x != seek.byte {
                            assert(after.slot(x) == before.slot(x));
                        }
                    }
                }
                after.lemma_dense_step();
                lemma_edit_below(before, after, key@, idx as int, None);
            }
            r
        },
    }
}

/// `new` is the well-formed subtree that holds what `old` holds, except that
/// `k` maps to `v`; it is dense, and snug, if `old` is.
pub open spec fn rewritten<V>(old: Node<V>, new: Node<V>, k: Seq<u8>, v: V) -> bool {
    &&& new.wf()
    &&& old.dense() ==> new.dense()
    &&& old.dense() && old.snug() ==> new.snug()
    &&& !(new is Empty)
    &&& forall|q: Seq<u8>| #[trigger]
        new.lookup(q) == if q == k {
            Some(v)
        } else {
            old.lookup(q)
        }
}

proof fn lemma_rewrite_here<V>(n: Node<V>, k: Seq<u8>)
    requires
        n.wf(),
        k.len() == 0,
    ensures
        forall|new: Node<V>, v: V|
            #[trigger] rewritten(n, new, k, v) <== {
                &&& new.value() == Some(v)
                &&& forall|x: u8| #[trigger] new.slot(x) == n.slot(x)
                &&& new.wf_local()
                &&& new.dense_local() == n.dense_local()
                &&& new.inner() == n.inner()
                &&& !(new is Empty)
            },
{
    assert forall|new: Node<V>, v: V|
        {
            &&& new.value() == Some(v)
            &&& forall|x: u8| #[trigger] new.slot(x) == n.slot(x)
            &&& new.wf_local()
            &&& new.dense_local() == n.dense_local()
            &&& new.inner() == n.inner()
            &&& !(new is Empty)
        } implies #[trigger] rewritten(n, new, k, v) by {
        n.lemma_wf_step();
        new.lemma_wf_step();
        n.lemma_dense_step();
        new.lemma_dense_step();
        n.lemma_snug_step();
        new.lemma_snug_step();
        assert forall|q: Seq<u8>| #[trigger] new.lookup(q) == if q == k {
            Some(v)
        } else {
            n.lookup(q)
        } by {
            if q.len() > 0 {
                new.lemma_lookup_step(q);
                n.lemma_lookup_step(q);
            } else {
                assert(q =~= k);
            }
        }
    }
}

proof fn lemma_rewrite_step<V>(n: Node<V>, b: u8, k: Seq<u8>, k1: Seq<u8>)
    requires
        n.wf(),
        n.slot(b) is Some,
        k.len() > 0,
        k[0] == b,
        k.drop_first() == k1,
    ensures
        forall|new: Node<V>, c: Node<V>, v: V|
            #![trigger rewritten(n, new, k, v), rewritten(n.slot(b)->Some_0, c, k1, v)]
            {
                &&& new.value() == n.value()
                &&& forall|x: u8| x != b ==> new.slot(x) == n.slot(x)
                &&& live(new.slot(b)) == live(Some(c))
                &&& !(c is Empty) ==> new.wf_local()
                &&& n.dense_local() && !(c is Empty) ==> new.dense_local()
                &&& n.inner().snug() ==> new.inner().snug()
                &&& rewritten(n.slot(b)->Some_0, c, k1, v)
            } ==> rewritten(n, new, k, v),
{
    let c0 = n.slot(b)->Some_0;
    assert forall|new: Node<V>, c: Node<V>, v: V|
        {
            &&& new.value() == n.value()
            &&& forall|x: u8| x != b ==> new.slot(x) == n.slot(x)
            &&& live(new.slot(b)) == live(Some(c))
            &&& !(c is Empty) ==> new.wf_local()
            &&& n.dense_local() && !(c is Empty) ==> new.dense_local()
            &&& n.inner().snug() ==> new.inner().snug()
            &&& #[trigger] rewritten(c0, c, k1, v)
        } implies #[trigger] rewritten(n, new, k, v) by {
        n.lemma_wf_step();
        n.lemma_dense_step();
        n.lemma_snug_step();
        if n.dense() && n.snug() {
            assert forall|x: u8| #[trigger] new.slot(x) is Some implies new.slot(
                x,
            )->Some_0.snug() by {
                if x != b {
                    assert(new.slot(x) == n.slot(x));
                }
            }
            new.lemma_snug_step();
        }
        if n.dense() {
            assert forall|x: u8| #[trigger] new.slot(x) is Some implies new.slot(
                x,
            )->Some_0.dense() by {
                if x != b {
                    assert(new.slot(x) == n.slot(x));
                }
            }
            new.lemma_dense_step();
        }
        assert(new.slot(b) == Some(c));
        assert forall|x: u8| #[trigger] new.slot(x) is Some implies new.slot(x)->Some_0.wf() by {
            if x != b {
                assert(new.slot(x) == n.slot(x));
            }
        }
        new.lemma_wf_step();
        assert forall|q: Seq<u8>| #[trigger] new.lookup(q) == if q == k {
            Some(v)
        } else {
            n.lookup(q)
        } by {
            if q.len() > 0 {
                new.lemma_lookup_step(q);
                n.lemma_lookup_step(q);
                if q[0] == b {
                    if q.drop_first() == k1 {
                        assert forall|i: int| 0 <= i < q.len() implies q[i] == k[i] by {
                            if i > 0 {
                                assert(q[i] == q.drop_first()[i - 1]);
                                assert(k[i] == k.drop_first()[i - 1]);
                            }
                        }
                        assert(q =~= k);
                    }
                    if q == k {
                        assert(q.drop_first() == k1);
                    }
                } else {
                    assert(new.slot(q[0]) == n.slot(q[0]));
                }
            }
        }
    }
}

/// The value stored under `key[idx..]` in the subtree at `node`, to be
/// changed in place.
fn get_mut_below<'a, V>(node: &'a mut Node<V>, key: &[u8], idx: usize) -> (r: Option<&'a mut V>)
    requires
        old(node).wf(),
        idx <= key@.len(),
        old(node).lookup(suffix(key@, idx as int)) is Some,
    ensures
        r is Some,
        r is Some ==> *r->Some_0 == old(node).lookup(suffix(key@, idx as int))->Some_0 && rewritten(
            *old(node),
            *final(node),
            suffix(key@, idx as int),
            *final(r->Some_0),
        ),
    decreases key@.len() - idx,
{
    let ghost before = *node;
    proof {
        before.lemma_wf_step();
    }
    if idx == key.len() {
        proof {
            assert(suffix(key@, idx as int) =~= Seq::<u8>::empty());
            lemma_rewrite_here(before, suffix(key@, idx as int));
        }
        return node.value_mut();
    }
    let seek = Seek::at(key, idx);
    proof {
        before.lemma_lookup_step(suffix(key@, idx as int));
        lemma_suffix_step(key@, idx as int, suffix(key@, idx as int));
        if before.slot(seek.byte) is Some {
            lemma_rewrite_step(
                before,
                seek.byte,
                suffix(key@, idx as int),
                suffix(key@, idx as int + 1),
            );
        }
    }
    match node.find_child_mut(seek) {
        Some(child) => get_mut_below(child, key, idx + 1),
        None => None,
    }
}

/// An adaptive radix tree: an index from byte strings to values, one tree
/// level per key byte.
pub struct Tree<V> {
    pub root: Node<V>,
    /// The number of keys stored.
    pub count: usize,
    /// The keys stored.
    pub keys: Ghost<Set<Seq<u8>>>,
}

impl<V> View for Tree<V> {
    type V = Map<Seq<u8>, V>;

    /// The keys stored in the tree, each with its value.
    open spec fn view(&self) -> Map<Seq<u8>, V> {
        Map::new(|k: Seq<u8>| self.root.lookup(k) is Some, |k: Seq<u8>| self.root.lookup(k)->Some_0)
    }
}

proof fn lemma_get_mut_view<V>(t: Tree<V>, k: Seq<u8>)
    requires
        t.wf(),
        t@.contains_key(k),
    ensures
        forall|root: Node<V>, v: V| #[trigger]
            rewritten(t.root, root, k, v) ==> {
                &&& (Tree { root, count: t.count, keys: t.keys }).wf()
                &&& t.root.snug() ==> root.snug()
                &&& (Tree { root, count: t.count, keys: t.keys })@ == t@.insert(k, v)
            },
{
    assert forall|root: Node<V>, v: V| #[trigger] rewritten(t.root, root, k, v) implies {
        &&& (Tree { root, count: t.count, keys: t.keys }).wf()
        &&& t.root.snug() ==> root.snug()
        &&& (Tree { root, count: t.count, keys: t.keys })@ == t@.insert(k, v)
    } by {
        let t2 = Tree { root, count: t.count, keys: t.keys };
        assert(t.root.lookup(k) is Some ==> t.keys@.contains(k));
        assert(t2@ =~= t@.insert(k, v));
    }
}

impl<V> Tree<V> {
    /// Every node satisfies the invariants of its kind, every inner node's
    /// `count` is its number of non-empty children, and `count` here is the
    /// number of keys.
    pub open spec fn wf(&self) -> bool {
        &&& self.root.wf()
        &&& self.root.dense()
        &&& self.keys@.finite()
        &&& self.count == self.keys@.len()
        &&& forall|k: Seq<u8>| #[trigger] self.keys@.contains(k) <==> self.root.lookup(k) is Some
    }

    proof fn lemma_dom(&self)
        requires
            self.wf(),
        ensures
            self@.dom() == self.keys@,
            self@.dom().finite(),
    {
        assert(self@.dom() =~= self.keys@);
    }

    pub fn new() -> (r: Tree<V>)
        ensures
            r.wf(),
            r.root is Empty,
            r.root.snug(),
            r.count == 0,
            r@ == Map::<Seq<u8>, V>::empty(),
    {
        let r = Tree { root: Node::Empty, count: 0, keys: Ghost(Set::empty()) };
        proof {
            r.root.lemma_empty();
            assert(r@ =~= Map::<Seq<u8>, V>::empty());
        }
        r
    }

    /// The node at the top of the tree.
    pub fn root(&self) -> (r: &Node<V>)
        ensures
            *r == self.root,
    {
        &self.root
    }

    /// The number of keys stored.
    pub fn len(&self) -> (r: usize)
        requires
            self.wf(),
        ensures
            r == self@.len(),
    {
        proof {
            self.lemma_dom();
        }
        self.count
    }

    /// The value stored under `key`, if any.
    pub fn get(&self, key: &[u8]) -> (r: Option<&V>)
        requires
            self.wf(),
        ensures
            match r {
                Some(v) => self@.contains_key(key@) && *v == self@[key@],
                None => !self@.contains_key(key@),
            },
    {
        let mut node = &self.root;
        let mut i: usize = 0;
        proof {
            assert(suffix(key@, 0) =~= key@);
        }
        while i < key.len()
            invariant
                i <= key@.len(),
                node.wf(),
                self.wf(),
                self.root.lookup(key@) == node.lookup(suffix(key@, i as int)),
            decreases key@.len() - i,
        {
            let seek = Seek::at(key, i);
            proof {
                node.lemma_wf_step();
                node.lemma_lookup_step(suffix(key@, i as int));
                lemma_suffix_step(key@, i as int, suffix(key@, i as int));
            }
            match node.find_child(seek) {
                Some(c) => {
                    node = c;
                },
                None => {
                    return None;
                },
            }
            i += 1;
        }
        proof {
            node.lemma_wf_step();
            assert(suffix(key@, i as int) =~= Seq::<u8>::empty());
        }
        match node {
            Node::Leaf(leaf) => Some(&leaf.val),
            Node::BoxNodeLeaf(_, leaf) => Some(&leaf.val),
            _ => None,
        }
    }

    /// The value stored under `key`, if any, to be changed in place.
    pub fn get_mut(&mut self, key: &[u8]) -> (r: Option<&mut V>)
        requires
            old(self).wf(),
        ensures
            r is Some <==> old(self)@.contains_key(key@),
            r is None ==> *final(self) == *old(self),
            r is Some ==> {
                &&& *r->Some_0 == old(self)@[key@]
                &&& final(self).wf()
                &&& old(self).root.snug() ==> final(self).root.snug()
                &&& final(self)@ == old(self)@.insert(key@, *final(r->Some_0))
            },
    {
        proof {
            assert(suffix(key@, 0) =~= key@);
            }
        if self.get(key).is_none() {
            return None;
        }
        proof {
            lemma_get_mut_view(*self, key@);
        }
        get_mut_below(&mut self.root, key, 0)
    }

    /// Stores `val` under `key`; hands back the value it replaces, if any.
    pub fn insert(&mut self, key: &[u8], val: V) -> (r: Option<V>)
        requires
            old(self).wf(),
            old(self)@.len() < usize::MAX,
        ensures
            final(self).wf(),
            old(self).root.snug() ==> final(self).root.snug(),
            final(self)@ == old(self)@.insert(key@, val),
            r == if old(self)@.contains_key(key@) {
                Some(old(self)@[key@])
            } else {
                None
            },
    {
        proof {
            self.lemma_dom();
            assert(suffix(key@, 0) =~= key@);
        }
        let r = insert_below(&mut self.root, key, 0, val);
        if r.is_none() {
            self.count += 1;
            self.keys = Ghost(self.keys@.insert(key@));
        }
        proof {
            assert forall|k: Seq<u8>| #[trigger] self.keys@.contains(k) <==> self.root.lookup(
                k,
            ) is Some by {}
            assert(self@ =~= old(self)@.insert(key@, val));
        }
        r
    }

    /// Takes the value stored under `key` out of the tree, if any.
    pub fn remove(&mut self, key: &[u8]) -> (r: Option<V>)
        requires
            old(self).wf(),
        ensures
            final(self).wf(),
            final(self)@ == old(self)@.remove(key@),
            r == if old(self)@.contains_key(key@) {
                Some(old(self)@[key@])
            } else {
                None
            },
    {
        proof {
            self.lemma_dom();
            assert(suffix(key@, 0) =~= key@);
        }
        let r = remove_below(&mut self.root, key, 0);
        if r.is_some() {
            proof {
                assert(self.keys@.contains(key@));
                assert(self.keys@.remove(key@).len() == self.keys@.len() - 1);
            }
            self.count -= 1;
            self.keys = Ghost(self.keys@.remove(key@));
        }
        proof {
            assert forall|k: Seq<u8>| #[trigger] self.keys@.contains(k) <==> self.root.lookup(
                k,
            ) is Some by {}
            assert(self@ =~= old(self)@.remove(key@));
        }
        r
    }
}

} // verus!
