//! Draining iterator over the characters removed from a buffer.

use vstd::prelude::*;

verus! {

use vstd::string::StringSliceAdditionalSpecFns;
use vstd::utf8::decode_utf8;
use vstd::utf8::is_char_boundary;
use vstd::utf8::pop_first_scalar;

use crate::arraystring::ArrayString;
use crate::codec::first_char;
use crate::codec::last_char;
use crate::codec::lemma_boundary_prefix;
use crate::codec::lemma_boundary_suffix;
use crate::codec::lemma_last_scalar;
use crate::codec::lemma_last_scalar_suffix;

broadcast use vstd::utf8::group_utf8_lib;

/// Iterator over the characters a `drain` call removed.
///
/// It owns a detached buffer holding exactly the removed text, already
/// evicted from the source before this value is ever stepped; dropping
/// it early discards the rest. Forward steps decode at a cursor,
/// backward steps pop from the tail of the same shrinking buffer.
pub struct Drain<const N: usize> {
    /// The detached removed text.
    pub extracted: ArrayString<N>,
    /// Byte offset of forward iteration into `extracted`.
    pub cursor: u8,
}

impl<const N: usize> View for Drain<N> {
    type V = Seq<char>;

    /// The characters not yet yielded.
    open spec fn view(&self) -> Seq<char> {
        decode_utf8(self.remaining_bytes())
    }
}

impl<const N: usize> Drain<N> {
    /// The bytes between the cursor and the end of the detached buffer.
    pub open spec fn remaining_bytes(&self) -> Seq<u8> {
        self.extracted.bytes().subrange(self.cursor as int, self.extracted.size as int)
    }

    /// Invariant: the detached buffer is well formed and the cursor
    /// sits on a character boundary inside it.
    pub open spec fn wf(&self) -> bool {
        &&& self.extracted.wf()
        &&& self.cursor <= self.extracted.size
        &&& is_char_boundary(self.extracted.bytes(), self.cursor as int)
    }

    /// The characters not yet yielded, as a string slice.
    pub fn as_str(&self) -> (r: &str)
        requires
            self.wf(),
        ensures
            r@ == self@,
            r.spec_bytes() == self.remaining_bytes(),
    {
        proof {
            vstd::utf8::valid_utf8_split(self.extracted.bytes(), self.cursor as int);
        }
        let b = vstd::slice::slice_subrange(
            self.extracted.array.as_slice(),
            self.cursor as usize,
            self.extracted.size as usize,
        );
        proof {
            assert(b@ =~= self.remaining_bytes());
        }
        match core::str::from_utf8(b) {
            Ok(s) => {
                proof {
                    vstd::utf8::encode_utf8_decode_utf8(s@);
                }
                s
            },
            Err(_) => vstd::pervasive::unreached(),
        }
    }

    /// Yields the next character from the front, advancing the cursor.
    pub fn next(&mut self) -> (r: Option<char>)
        requires
            old(self).wf(),
        ensures
            final(self).wf(),
            old(self)@.len() == 0 ==> r is None && *final(self) == *old(self),
            old(self)@.len() > 0 ==> {
                &&& r == Some(old(self)@[0])
                &&& final(self)@ == old(self)@.drop_first()
                &&& final(self).extracted == old(self).extracted
            },
    {
        let ghost b = self.extracted.bytes();
        let ghost rem = self.remaining_bytes();
        proof {
            vstd::utf8::valid_utf8_split(b, self.cursor as int);
            assert(rem =~= b.subrange(self.cursor as int, b.len() as int));
        }
        if self.cursor == self.extracted.size {
            proof {
                assert(rem =~= Seq::<u8>::empty());
            }
            return None;
        }
        proof {
            assert(self.extracted.array@.subrange(self.cursor as int, self.extracted.size as int)
                =~= rem);
        }
        let (c, w) = first_char(
            &self.extracted.array,
            self.cursor as usize,
            self.extracted.size as usize,
        );
        self.cursor = self.cursor + w as u8;
        proof {
            let rest = pop_first_scalar(rem);
            assert(rest =~= b.subrange(self.cursor as int, self.extracted.size as int));
            assert(is_char_boundary(rest, 0));
            assert(is_char_boundary(rem, w as int));
            lemma_boundary_suffix(b, old(self).cursor as int, self.cursor as int);
            assert(self.remaining_bytes() =~= rest);
        }
        Some(c)
    }

    /// Yields the next character from the back, shrinking the detached
    /// buffer. Forward and backward iteration never yield the same
    /// character twice: the back end stops at the cursor.
    pub fn next_back(&mut self) -> (r: Option<char>)
        requires
            old(self).wf(),
        ensures
            final(self).wf(),
            old(self)@.len() == 0 ==> r is None && *final(self) == *old(self),
            old(self)@.len() > 0 ==> {
                &&& r == Some(old(self)@.last())
                &&& final(self)@ == old(self)@.drop_last()
                &&& final(self).cursor == old(self).cursor
            },
    {
        let ghost b = self.extracted.bytes();
        let ghost rem = self.remaining_bytes();
        proof {
            vstd::utf8::valid_utf8_split(b, self.cursor as int);
            assert(rem =~= b.subrange(self.cursor as int, b.len() as int));
        }
        if self.cursor == self.extracted.size {
            proof {
                assert(rem =~= Seq::<u8>::empty());
            }
            return None;
        }
        proof {
            lemma_last_scalar_suffix(b, self.cursor as int);
            lemma_last_scalar(b);
            lemma_last_scalar(rem);
            assert(self.extracted.array@.subrange(0, self.extracted.size as int) =~= b);
        }
        let (c, w) = last_char(&self.extracted.array, self.extracted.size as usize);
        proof {
            lemma_boundary_prefix(b, b.len() - w, self.cursor as int);
        }
        self.extracted.size = self.extracted.size - w as u8;
        proof {
            assert(self.extracted.bytes() =~= b.subrange(0, b.len() - w));
            assert(self.remaining_bytes() =~= rem.subrange(0, rem.len() - w));
        }
        Some(c)
    }
}

} // verus!
