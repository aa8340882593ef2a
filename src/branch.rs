use vstd::prelude::*;

use crate::util::{into_boxed, to_vec};
use crate::Node;

verus! {

/// A run of key bytes shared by everything below `node`: the shape of a
/// compressed path.
#[derive(Debug)]
pub struct Branch<V> {
    sequence: Box<[u8]>,
    node: Node<V>,
}

impl<V> Branch<V> {
    /// The shared bytes.
    pub closed spec fn sequence_view(&self) -> Seq<u8> {
        self.sequence@
    }

    /// The node below the shared bytes.
    pub closed spec fn node_view(&self) -> Node<V> {
        self.node
    }

    pub fn new(sequence: &[u8], node: Node<V>) -> (r: Self)
        ensures
            r.sequence_view() == sequence@,
            r.node_view() == node,
    {
        Self { sequence: into_boxed(to_vec(sequence)), node }
    }

    pub fn sequence(&self) -> (r: &[u8])
        ensures
            r@ == self.sequence_view(),
    {
        &self.sequence
    }
}

} // verus!
