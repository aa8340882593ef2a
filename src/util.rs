use vstd::prelude::*;

verus! {

/// Exchanges the elements at `lo` and `hi`.
pub fn swap_unchecked<T>(x: &mut [T], lo: usize, hi: usize)
    requires
        lo < hi < old(x)@.len(),
    ensures
        final(x)@ == old(x)@.update(lo as int, old(x)@[hi as int]).update(
            hi as int,
            old(x)@[lo as int],
        ),
{
    let (init, tail) = x.split_at_mut(hi);
    std::mem::swap(&mut init[lo], &mut tail[0]);
}

/// Relies on Vec::into_boxed_slice: the boxed slice holds the vector's
/// elements in order.
#[verifier::external_body]
pub(crate) fn into_boxed(v: Vec<u8>) -> (r: Box<[u8]>)
    ensures
        r@ == v@,
{
    v.into_boxed_slice()
}

/// A vector holding the bytes of `s` in order.
pub(crate) fn to_vec(s: &[u8]) -> (r: Vec<u8>)
    ensures
        r@ == s@,
{
    let mut v: Vec<u8> = Vec::with_capacity(s.len());
    let mut i: usize = 0;
    while i < s.len()
        invariant
            i <= s@.len(),
            v@ == s@.subrange(0, i as int),
        decreases s@.len() - i,
    {
        v.push(s[i]);
        i += 1;
        proof {
            assert(v@ =~= s@.subrange(0, i as int));
        }
    }
    proof {
        assert(v@ =~= s@);
    }
    v
}

} // verus!
