use vstd::prelude::*;

verus! {

/// A terminal value carrier: the value stored where a key ends.
#[derive(Debug)]
pub struct Leaf<V> {
    pub val: V,
}

impl<V> Leaf<V> {
    pub fn new(val: V) -> (r: Self)
        ensures
            r.val == val,
    {
        Leaf { val }
    }

    /// Stores `val` and hands back the value held before.
    pub fn insert(&mut self, val: V) -> (r: V)
        ensures
            r == old(self).val,
            final(self).val == val,
    {
        let mut v = val;
        std::mem::swap(&mut self.val, &mut v);
        v
    }
}

} // verus!
