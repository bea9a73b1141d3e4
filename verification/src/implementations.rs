//! Standard trait implementations for the buffer: construction,
//! duplication and equality, all delegating to the live text.

use vstd::prelude::*;

verus! {

use crate::arraystring::ArrayString;
use crate::error::OutOfBounds;

impl<const N: usize> Default for ArrayString<N> {
    /// An empty buffer.
    fn default() -> (s: Self)
        ensures
            s.wf(),
            s@ == Seq::<char>::empty(),
            s.size == 0,
    {
        Self::new()
    }
}

impl<const N: usize> Clone for ArrayString<N> {
    /// A byte-for-byte copy with independent storage.
    fn clone(&self) -> (r: Self)
        ensures
            r.array@ == self.array@,
            r.size == self.size,
            r.bytes() == self.bytes(),
            r@ == self@,
            self.wf() ==> r.wf(),
    {
        let array = self.array.clone();
        proof {
            assert(array@ =~= self.array@);
        }
        ArrayString { array, size: self.size }
    }
}

impl<const N: usize> core::str::FromStr for ArrayString<N> {
    type Err = OutOfBounds;

    /// Strict construction from a string slice.
    fn from_str(s: &str) -> Result<Self, OutOfBounds> {
        Self::try_from_str(s)
    }
}

impl<const N: usize, const M: usize> PartialEq<ArrayString<M>> for ArrayString<N> {
    /// Buffers — possibly of different capacities — compare equal
    /// exactly when their live bytes, and so their visible text, are
    /// equal.
    fn eq(&self, other: &ArrayString<M>) -> (r: bool) {
        if self.size != other.size {
            return false;
        }
        let n = self.size as usize;
        if n > self.array.len() || n > other.array.len() {
            return false;
        }
        let mut i: usize = 0;
        while i < n
            invariant
                i <= n,
                n == self.size as int,
                self.size == other.size,
                n <= self.array@.len(),
                n <= other.array@.len(),
                forall|j: int| 0 <= j < i ==> self.array@[j] == other.array@[j],
            decreases n - i,
        {
            if self.array[i] != other.array[i] {
                proof {
                    assert(self.bytes()[i as int] != other.bytes()[i as int]);
                }
                return false;
            }
            i = i + 1;
        }
        proof {
            assert(self.bytes() =~= other.bytes());
        }
        true
    }
}

impl<const N: usize> Eq for ArrayString<N> {

}

impl<const N: usize, const M: usize> vstd::std_specs::cmp::PartialEqSpecImpl<ArrayString<M>> for ArrayString<N> {
    open spec fn obeys_eq_spec() -> bool {
        true
    }

    open spec fn eq_spec(&self, other: &ArrayString<M>) -> bool {
        &&& self.size == other.size
        &&& self.size as int <= self.array@.len()
        &&& self.size as int <= other.array@.len()
        &&& self.bytes() == other.bytes()
    }
}

/// Lexicographic order of two byte sequences — for UTF-8 this is also
/// the code-point order of the text they encode.
pub open spec fn lex_order(a: Seq<u8>, b: Seq<u8>) -> core::cmp::Ordering
    decreases a.len(),
{
    if a.len() == 0 && b.len() == 0 {
        core::cmp::Ordering::Equal
    } else if a.len() == 0 {
        core::cmp::Ordering::Less
    } else if b.len() == 0 {
        core::cmp::Ordering::Greater
    } else if a[0] < b[0] {
        core::cmp::Ordering::Less
    } else if a[0] > b[0] {
        core::cmp::Ordering::Greater
    } else {
        lex_order(a.drop_first(), b.drop_first())
    }
}

impl<const N: usize> PartialOrd for ArrayString<N> {
    /// Buffers order by their live bytes, which is the lexicographic
    /// order of their visible text.
    fn partial_cmp(&self, other: &Self) -> (r: Option<core::cmp::Ordering>) {
        let an = self.size as usize;
        let bn = other.size as usize;
        if an > self.array.len() || bn > other.array.len() {
            return None;
        }
        let ghost a = self.bytes();
        let ghost b = other.bytes();
        let m = if an < bn {
            an
        } else {
            bn
        };
        let mut i: usize = 0;
        proof {
            assert(a.skip(0) =~= a);
            assert(b.skip(0) =~= b);
        }
        while i < m
            invariant
                i <= m,
                m == if an < bn {
                    an as int
                } else {
                    bn as int
                },
                an == self.size as int,
                bn == other.size as int,
                an <= self.array@.len(),
                bn <= other.array@.len(),
                a == self.bytes(),
                b == other.bytes(),
                lex_order(a, b) == lex_order(a.skip(i as int), b.skip(i as int)),
            decreases m - i,
        {
            let x = self.array[i];
            let y = other.array[i];
            proof {
                assert(a.skip(i as int)[0] == a[i as int]);
                assert(b.skip(i as int)[0] == b[i as int]);
            }
            if x < y {
                return Some(core::cmp::Ordering::Less);
            }
            if x > y {
                return Some(core::cmp::Ordering::Greater);
            }
            proof {
                assert(a.skip(i as int).drop_first() =~= a.skip(i + 1));
                assert(b.skip(i as int).drop_first() =~= b.skip(i + 1));
            }
            i = i + 1;
        }
        proof {
            assert(a.skip(m as int).len() == an - m);
            assert(b.skip(m as int).len() == bn - m);
        }
        if an < bn {
            Some(core::cmp::Ordering::Less)
        } else if an > bn {
            Some(core::cmp::Ordering::Greater)
        } else {
            Some(core::cmp::Ordering::Equal)
        }
    }
}

impl<const N: usize> vstd::std_specs::cmp::PartialOrdSpecImpl for ArrayString<N> {
    open spec fn obeys_partial_cmp_spec() -> bool {
        true
    }

    open spec fn partial_cmp_spec(&self, other: &Self) -> Option<core::cmp::Ordering> {
        if self.size as int <= self.array@.len() && other.size as int <= other.array@.len() {
            Some(lex_order(self.bytes(), other.bytes()))
        } else {
            None
        }
    }
}

} // verus!
