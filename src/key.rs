use std::cmp::Ordering;

use vstd::prelude::*;

use crate::util::{into_boxed, to_vec};

verus! {

/// The length of a key held inline in full.
pub const MEDIUM_LEN: usize = 23;

/// The most bytes a short key holds inline next to its length.
pub const SMALL_LIMIT: usize = 22;

/// A byte string held inline when it is short and on the heap otherwise.
#[derive(Debug)]
pub enum Key {
    Empty,
    /// A length of at most 22 and the bytes, of which the first `length` count.
    Small(u8, [u8; 22]),
    Medium([u8; 23]),
    Large(Box<[u8]>),
}

/// The number of bytes a short key with length byte `len` holds: a length
/// past the room available counts as full.
pub open spec fn small_len(len: u8) -> int {
    if len as usize <= SMALL_LIMIT {
        len as int
    } else {
        SMALL_LIMIT as int
    }
}

fn small_len_exec(len: u8) -> (r: usize)
    ensures
        r == small_len(len),
{
    if len as usize <= SMALL_LIMIT {
        len as usize
    } else {
        SMALL_LIMIT
    }
}

impl View for Key {
    type V = Seq<u8>;

    /// The bytes of the key.
    open spec fn view(&self) -> Seq<u8> {
        match self {
            Key::Empty => Seq::empty(),
            Key::Small(len, b) => b@.subrange(0, small_len(*len)),
            Key::Medium(b) => b@,
            Key::Large(b) => b@,
        }
    }
}

impl Key {
    fn new_medium(slice: &[u8]) -> (r: Self)
        requires
            slice@.len() == MEDIUM_LEN,
        ensures
            r@ == slice@,
            r is Medium,
    {
        let mut v = [0u8; 23];
        let mut i: usize = 0;
        while i < MEDIUM_LEN
            invariant
                i <= MEDIUM_LEN,
                slice@.len() == MEDIUM_LEN,
                forall|j: int| 0 <= j < i ==> v@[j] == slice@[j],
            decreases MEDIUM_LEN - i,
        {
            v[i] = slice[i];
            i += 1;
        }
        proof {
            assert(v@ =~= slice@);
        }
        Key::Medium(v)
    }

    fn new_small(slice: &[u8]) -> (r: Self)
        requires
            slice@.len() <= SMALL_LIMIT,
        ensures
            r@ == slice@,
            r is Small,
    {
        let mut v = [0u8; 22];
        let len = slice.len();
        let mut i: usize = 0;
        while i < len
            invariant
                i <= len,
                len == slice@.len() <= SMALL_LIMIT,
                forall|j: int| 0 <= j < i ==> v@[j] == slice@[j],
            decreases len - i,
        {
            v[i] = slice[i];
            i += 1;
        }
        proof {
            assert(v@.subrange(0, len as int) =~= slice@);
        }
        Key::Small(len as u8, v)
    }

    pub fn len(&self) -> (r: usize)
        ensures
            r == self@.len(),
    {
        match self {
            Key::Empty => 0,
            Key::Small(len, _) => small_len_exec(*len),
            Key::Medium(_) => MEDIUM_LEN,
            Key::Large(b) => b.len(),
        }
    }

    pub fn as_slice(&self) -> (r: &[u8])
        ensures
            r@ == self@,
    {
        match self {
            Key::Empty => &[],
            Key::Small(len, b) => {
                let n = small_len_exec(*len);
                let s: &[u8] = b;
                &s[0..n]
            },
            Key::Medium(b) => b,
            Key::Large(b) => b,
        }
    }

    /// The key extended by one byte.
    pub fn concat(&self, byte: u8) -> (r: Key)
        ensures
            r@ == self@.push(byte),
    {
        match self {
            Key::Empty => {
                let mut v = [0u8; 22];
                v[0] = byte;
                let r = Key::Small(1, v);
                proof {
                    assert(r@ =~= self@.push(byte));
                }
                r
            },
            Key::Large(b) => {
                let mut v = to_vec(b);
                v.push(byte);
                Key::Large(into_boxed(v))
            },
            Key::Small(len, b) => {
                let n = small_len_exec(*len);
                if n < SMALL_LIMIT {
                    let mut b2 = *b;
                    b2[n] = byte;
                    let r = Key::Small(n as u8 + 1, b2);
                    proof {
                        assert(r@ =~= self@.push(byte));
                    }
                    r
                } else {
                    let mut v = [0u8; 23];
                    let mut i: usize = 0;
                    while i < SMALL_LIMIT
                        invariant
                            i <= SMALL_LIMIT,
                            forall|j: int| 0 <= j < i ==> v@[j] == b@[j],
                        decreases SMALL_LIMIT - i,
                    {
                        v[i] = b[i];
                        i += 1;
                    }
                    v[SMALL_LIMIT] = byte;
                    let r = Key::Medium(v);
                    proof {
                        assert(r@ =~= self@.push(byte));
                    }
                    r
                }
            },
            Key::Medium(b) => {
                let mut v = to_vec(b);
                v.push(byte);
                Key::Large(into_boxed(v))
            },
        }
    }
}

impl Clone for Key {
    fn clone(&self) -> (r: Key)
        ensures
            r@ == self@,
    {
        match self {
            Key::Empty => Key::Empty,
            Key::Small(len, b) => Key::Small(*len, *b),
            Key::Medium(b) => Key::Medium(*b),
            Key::Large(b) => {
                Key::Large(into_boxed(to_vec(b)))
            },
        }
    }
}

impl Key {
    /// The key holding the bytes of `s`: inline when there are at most 23 of
    /// them, on the heap otherwise.
    pub fn from_slice(s: &[u8]) -> (r: Key)
        ensures
            r@ == s@,
            s@.len() == 0 <==> r is Empty,
            0 < s@.len() <= SMALL_LIMIT <==> r is Small,
            s@.len() == MEDIUM_LEN <==> r is Medium,
            s@.len() > MEDIUM_LEN <==> r is Large,
    {
        let len = s.len();
        if len == 0 {
            Key::Empty
        } else if len <= SMALL_LIMIT {
            Key::new_small(s)
        } else if len == MEDIUM_LEN {
            Key::new_medium(s)
        } else {
            Key::Large(into_boxed(to_vec(s)))
        }
    }

    /// The key holding the bytes of `v`, as `from_slice` lays them out.
    pub fn from_vec(v: Vec<u8>) -> (r: Key)
        ensures
            r@ == v@,
            v@.len() == 0 <==> r is Empty,
            0 < v@.len() <= SMALL_LIMIT <==> r is Small,
            v@.len() == MEDIUM_LEN <==> r is Medium,
            v@.len() > MEDIUM_LEN <==> r is Large,
    {
        if v.len() > MEDIUM_LEN {
            Key::Large(into_boxed(v))
        } else {
            Key::from_slice(v.as_slice())
        }
    }
}

impl vstd::std_specs::convert::FromSpecImpl<&[u8]> for Key {
    open spec fn obeys_from_spec() -> bool {
        false
    }

    open spec fn from_spec(v: &[u8]) -> Key {
        Key::Empty
    }
}

impl From<&[u8]> for Key {
    /// See `Key::from_slice`.
    fn from(s: &[u8]) -> Key {
        Key::from_slice(s)
    }
}

impl vstd::std_specs::convert::FromSpecImpl<Vec<u8>> for Key {
    open spec fn obeys_from_spec() -> bool {
        false
    }

    open spec fn from_spec(v: Vec<u8>) -> Key {
        Key::Empty
    }
}

impl From<Vec<u8>> for Key {
    /// See `Key::from_vec`.
    fn from(v: Vec<u8>) -> Key {
        Key::from_vec(v)
    }
}

impl vstd::std_specs::cmp::PartialEqSpecImpl for Key {
    open spec fn obeys_eq_spec() -> bool {
        true
    }

    open spec fn eq_spec(&self, other: &Key) -> bool {
        self@ == other@
    }
}

impl PartialEq for Key {
    /// Keys are equal when their bytes are.
    fn eq(&self, other: &Key) -> (r: bool) {
        let a = self.as_slice();
        let b = other.as_slice();
        if a.len() != b.len() {
            return false;
        }
        let mut i: usize = 0;
        while i < a.len()
            invariant
                i <= a@.len(),
                a@.len() == b@.len(),
                a@ == self@,
                b@ == other@,
                a@.subrange(0, i as int) == b@.subrange(0, i as int),
            decreases a@.len() - i,
        {
            if a[i] != b[i] {
                proof {
                    assert(a@[i as int] != b@[i as int]);
                }
                return false;
            }
            proof {
                assert(a@.subrange(0, i + 1) =~= a@.subrange(0, i as int).push(a@[i as int]));
                assert(b@.subrange(0, i + 1) =~= b@.subrange(0, i as int).push(b@[i as int]));
            }
            i += 1;
        }
        proof {
            assert(a@ =~= a@.subrange(0, i as int));
            assert(b@ =~= b@.subrange(0, i as int));
        }
        true
    }
}

impl Eq for Key {
}

/// The lexicographic order of byte strings: the first differing byte
/// decides, and a proper prefix comes first.
pub open spec fn lex_cmp(a: Seq<u8>, b: Seq<u8>) -> Ordering
    decreases a.len(),
{
    if a.len() == 0 {
        if b.len() == 0 {
            Ordering::Equal
        } else {
            Ordering::Less
        }
    } else if b.len() == 0 {
        Ordering::Greater
    } else if a[0] < b[0] {
        Ordering::Less
    } else if a[0] > b[0] {
        Ordering::Greater
    } else {
        lex_cmp(a.drop_first(), b.drop_first())
    }
}

fn cmp_bytes(a: &[u8], b: &[u8]) -> (r: Ordering)
    ensures
        r == lex_cmp(a@, b@),
{
    let mut i: usize = 0;
    proof {
        assert(a@.skip(0) =~= a@);
        assert(b@.skip(0) =~= b@);
    }
    while i < a.len() && i < b.len()
        invariant
            i <= a@.len(),
            i <= b@.len(),
            lex_cmp(a@, b@) == lex_cmp(a@.skip(i as int), b@.skip(i as int)),
        decreases a@.len() - i,
    {
        if a[i] < b[i] {
            return Ordering::Less;
        }
        if a[i] > b[i] {
            return Ordering::Greater;
        }
        proof {
            assert(a@.skip(i as int).drop_first() =~= a@.skip(i + 1));
            assert(b@.skip(i as int).drop_first() =~= b@.skip(i + 1));
        }
        i += 1;
    }
    if a.len() == i {
        if b.len() == i {
            Ordering::Equal
        } else {
            Ordering::Less
        }
    } else {
        Ordering::Greater
    }
}

impl vstd::std_specs::cmp::PartialOrdSpecImpl for Key {
    open spec fn obeys_partial_cmp_spec() -> bool {
        true
    }

    open spec fn partial_cmp_spec(&self, other: &Key) -> Option<Ordering> {
        Some(lex_cmp(self@, other@))
    }
}

impl PartialOrd for Key {
    /// Keys are ordered as their bytes are, lexicographically.
    fn partial_cmp(&self, other: &Key) -> (r: Option<Ordering>) {
        Some(cmp_bytes(self.as_slice(), other.as_slice()))
    }
}

impl vstd::std_specs::convert::FromSpecImpl<Box<[u8]>> for Key {
    open spec fn obeys_from_spec() -> bool {
        true
    }

    open spec fn from_spec(v: Box<[u8]>) -> Key {
        Key::Large(v)
    }
}

impl From<Box<[u8]>> for Key {
    /// Keeps the bytes on the heap as they are.
    fn from(v: Box<[u8]>) -> Key {
        Key::Large(v)
    }
}

impl vstd::std_specs::convert::FromSpecImpl<&str> for Key {
    open spec fn obeys_from_spec() -> bool {
        false
    }

    open spec fn from_spec(v: &str) -> Key {
        Key::Empty
    }
}

impl From<&str> for Key {
    /// The key holding the UTF-8 bytes of `s`; see `Key::from_slice`.
    fn from(s: &str) -> Key {
        Key::from_slice(s.as_bytes())
    }
}

} // verus!
