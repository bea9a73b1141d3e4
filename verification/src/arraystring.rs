//! The fixed-capacity string buffer and its operations.
//!
//! A buffer owns a byte store of compile-time size `N` and a one-byte
//! length counter. The live bytes `array[..size]` always form valid
//! UTF-8 and `size` never exceeds the capacity, which is `N` clipped to
//! 255. Every mutating operation validates its arguments first and
//! either succeeds completely or returns an error with the buffer
//! untouched.

use vstd::prelude::*;

verus! {

use vstd::string::StringSliceAdditionalSpecFns;
use vstd::utf8::decode_utf8;
use vstd::utf8::encode_scalar;
use vstd::utf8::encode_utf8;
use vstd::utf8::is_char_boundary;
use vstd::utf8::valid_utf8;

use crate::codec::char_width;
use crate::codec::chars_fit;
use crate::codec::concat_bytes;
use crate::codec::copy_into;
use crate::codec::fit_len;
use crate::codec::fit_point;
use crate::codec::first_char;
use crate::codec::last_char;
use crate::codec::lemma_boundary_suffix;
use crate::codec::lemma_concat_push;
use crate::codec::lemma_concat_split;
use crate::codec::lemma_decode_concat;
use crate::codec::lemma_fit_len;
use crate::codec::lossy_concat;
use crate::codec::shift_left;
use crate::codec::shift_right;
use crate::codec::trim_end_bytes;
use crate::codec::trim_start_bytes;
use crate::codec::trimmed;
use crate::codec::write_char;
use crate::drain::Drain;
use crate::error::Error;
use crate::error::OutOfBounds;
use crate::error::Utf16;
use crate::error::Utf8;
use crate::utf16::strict_join;
use crate::utf16::trunc_join;
use crate::utf16::utf16_lossy;
use crate::utf16::utf16_step;
use crate::utf16::utf16_strict;
use crate::utf16::utf16_trunc;

broadcast use vstd::utf8::group_utf8_lib;

/// String buffer of a compile-time fixed byte size.
///
/// Occupies `N + 1` bytes of payload: the byte store and the length
/// counter. It cannot outgrow its capacity and none of its operations
/// panic.
#[derive(Debug)]
pub struct ArrayString<const N: usize> {
    /// Backing byte store; only `array[..size]` is live.
    pub array: Vec<u8>,
    /// Current length in bytes.
    pub size: u8,
}

impl<const N: usize> View for ArrayString<N> {
    type V = Seq<char>;

    /// A buffer is viewed as the character sequence its live bytes
    /// encode.
    open spec fn view(&self) -> Seq<char> {
        decode_utf8(self.bytes())
    }
}

impl<const N: usize> ArrayString<N> {
    /// The live bytes.
    pub open spec fn bytes(&self) -> Seq<u8> {
        self.array@.subrange(0, self.size as int)
    }

    /// The capacity: the backing size clipped to what the one-byte
    /// length counter can express.
    pub open spec fn spec_capacity() -> int {
        if N as int > 255 {
            255
        } else {
            N as int
        }
    }

    /// Invariant of every buffer: the byte store has its fixed size,
    /// the length is within capacity, and the live bytes are valid
    /// UTF-8.
    pub open spec fn wf(&self) -> bool {
        &&& self.array@.len() == N
        &&& self.size as int <= Self::spec_capacity()
        &&& valid_utf8(self.bytes())
    }

    /// Creates a new empty buffer.
    pub fn new() -> (s: Self)
        ensures
            s.wf(),
            s@ == Seq::<char>::empty(),
            s.bytes() == Seq::<u8>::empty(),
            s.size == 0,
    {
        let s = ArrayString { array: vec![0u8; N], size: 0u8 };
        proof {
            assert(s.bytes() =~= Seq::<u8>::empty());
            assert(s@ =~= Seq::<char>::empty());
        }
        s
    }

    /// Maximum byte length, fixed at compile time.
    pub fn capacity() -> (c: u8)
        ensures
            c as int == Self::spec_capacity(),
    {
        if N > 255 {
            255
        } else {
            N as u8
        }
    }

    /// Current length in bytes.
    pub fn len(&self) -> (l: u8)
        requires
            self.wf(),
        ensures
            l == self.size,
            l as int == self.bytes().len(),
    {
        self.size
    }

    /// True when no bytes are live.
    pub fn is_empty(&self) -> (r: bool)
        requires
            self.wf(),
        ensures
            r == (self.size == 0),
            r == (self@ == Seq::<char>::empty()),
    {
        proof {
            if self.size == 0 {
                assert(self.bytes() =~= Seq::<u8>::empty());
                assert(self@ =~= Seq::<char>::empty());
            } else {
                crate::codec::lemma_valid_unfold(self.bytes());
            }
        }
        self.size == 0
    }

    /// Empties the buffer.
    pub fn clear(&mut self)
        requires
            old(self).wf(),
        ensures
            final(self).wf(),
            final(self)@ == Seq::<char>::empty(),
            final(self).size == 0,
    {
        self.size = 0;
        proof {
            assert(self.bytes() =~= Seq::<u8>::empty());
            assert(self@ =~= Seq::<char>::empty());
        }
    }

    /// The live bytes as a slice.
    pub fn as_bytes(&self) -> (r: &[u8])
        requires
            self.wf(),
        ensures
            r@ == self.bytes(),
    {
        vstd::slice::slice_subrange(self.array.as_slice(), 0, self.size as usize)
    }

    /// The live bytes as a string slice.
    pub fn as_str(&self) -> (r: &str)
        requires
            self.wf(),
        ensures
            r@ == self@,
            r.spec_bytes() == self.bytes(),
    {
        let b = self.as_bytes();
        match core::str::from_utf8(b) {
            Ok(s) => {
                proof {
                    vstd::utf8::encode_utf8_decode_utf8(s@);
                }
                s
            },
            Err(_) => vstd::pervasive::unreached(),
        }
    }

    /// True when `idx` lies on a character boundary of the live bytes
    /// (the end position counts as one).
    fn at_char_boundary(&self, idx: u8) -> (r: bool)
        requires
            self.wf(),
            idx <= self.size,
        ensures
            r == is_char_boundary(self.bytes(), idx as int),
    {
        if idx == self.size {
            proof {
                vstd::utf8::is_char_boundary_start_end_of_seq(self.bytes());
            }
            true
        } else {
            let b = self.array[idx as usize];
            proof {
                vstd::utf8::is_char_boundary_iff_not_is_continuation_byte(
                    self.bytes(),
                    idx as int,
                );
                assert(self.bytes()[idx as int] == self.array@[idx as int]);
            }
            !(b >= 0x80 && b <= 0xbf)
        }
    }

    /// Appends a string slice, or reports `OutOfBounds` and leaves the
    /// buffer untouched when the total length would exceed the
    /// capacity.
    pub fn try_push_str(&mut self, string: &str) -> (r: Result<(), OutOfBounds>)
        requires
            old(self).wf(),
        ensures
            final(self).wf(),
            r is Ok <==> old(self).size as int + string.spec_bytes().len()
                <= Self::spec_capacity(),
            r is Ok ==> {
                &&& final(self).bytes() == old(self).bytes() + string.spec_bytes()
                &&& final(self)@ == old(self)@ + string@
                &&& final(self).size as int == old(self).size as int + string.spec_bytes().len()
            },
            r is Err ==> *final(self) == *old(self),
    {
        let bs = string.as_bytes();
        let slen = bs.len();
        let cap = Self::capacity();
        if slen > (cap - self.size) as usize {
            return Err(OutOfBounds);
        }
        let ghost prev = self.bytes();
        copy_into(&mut self.array, self.size as usize, bs);
        self.size = self.size + slen as u8;
        proof {
            assert(self.bytes() =~= prev + string.spec_bytes());
            lemma_decode_concat(prev, string.spec_bytes());
            vstd::utf8::encode_utf8_decode_utf8(string@);
        }
        Ok(())
    }

    /// Appends the longest prefix of a string slice that fits, cut at a
    /// character boundary.
    pub fn push_str(&mut self, string: &str)
        requires
            old(self).wf(),
        ensures
            final(self).wf(),
            ({
                let fit = string.spec_bytes().subrange(
                    0,
                    fit_len(string.spec_bytes(), Self::spec_capacity() - old(self).size),
                );
                &&& final(self).bytes() == old(self).bytes() + fit
                &&& final(self)@ == old(self)@ + decode_utf8(fit)
                &&& final(self).size as int == old(self).size as int + fit.len()
            }),
    {
        let bs = string.as_bytes();
        let cap = Self::capacity();
        let room = (cap - self.size) as usize;
        proof {
            assert(bs@.subrange(0, bs@.len() as int) =~= string.spec_bytes());
        }
        let k = fit_point(bs, bs.len(), room);
        let ghost fit = string.spec_bytes().subrange(
            0,
            fit_len(string.spec_bytes(), Self::spec_capacity() - old(self).size),
        );
        proof {
            lemma_fit_len(string.spec_bytes(), room as int);
        }
        let part = vstd::slice::slice_subrange(bs, 0, k);
        let ghost prev = self.bytes();
        copy_into(&mut self.array, self.size as usize, part);
        self.size = self.size + k as u8;
        proof {
            assert(part@ == fit);
            assert(self.bytes() =~= prev + fit);
            lemma_decode_concat(prev, fit);
        }
    }

    /// Appends one character, or reports `OutOfBounds` and leaves the
    /// buffer untouched when it does not fit entirely.
    pub fn try_push(&mut self, character: char) -> (r: Result<(), OutOfBounds>)
        requires
            old(self).wf(),
        ensures
            final(self).wf(),
            r is Ok <==> old(self).size as int + encode_scalar(character as u32).len()
                <= Self::spec_capacity(),
            r is Ok ==> {
                &&& final(self).bytes() == old(self).bytes() + encode_scalar(character as u32)
                &&& final(self)@ == old(self)@.push(character)
                &&& final(self).size as int == old(self).size as int + encode_scalar(
                    character as u32,
                ).len()
            },
            r is Err ==> *final(self) == *old(self),
    {
        let w = char_width(character);
        let cap = Self::capacity();
        if w > (cap - self.size) as usize {
            return Err(OutOfBounds);
        }
        let ghost prev = self.bytes();
        let written = write_char(&mut self.array, self.size as usize, character);
        self.size = self.size + written as u8;
        proof {
            let enc = encode_scalar(character as u32);
            vstd::utf8::char_is_scalar(character);
            crate::codec::lemma_scalar_encoding(character as u32);
            assert(self.bytes() =~= prev + enc);
            lemma_decode_concat(prev, enc);
            assert(old(self)@.push(character) =~= old(self)@ + seq![character]);
            assert(self@ =~= old(self)@.push(character));
        }
        Ok(())
    }

    /// Appends one character if it fits entirely; otherwise does
    /// nothing.
    pub fn push(&mut self, ch: char)
        requires
            old(self).wf(),
        ensures
            final(self).wf(),
            old(self).size as int + encode_scalar(ch as u32).len() <= Self::spec_capacity() ==> {
                &&& final(self).bytes() == old(self).bytes() + encode_scalar(ch as u32)
                &&& final(self)@ == old(self)@.push(ch)
            },
            old(self).size as int + encode_scalar(ch as u32).len() > Self::spec_capacity()
                ==> *final(self) == *old(self),
    {
        let _ = self.try_push(ch);
    }

    /// Builds a buffer from a string slice, or reports `OutOfBounds`
    /// when it is longer than the capacity.
    pub fn try_from_str(s: &str) -> (r: Result<Self, OutOfBounds>)
        ensures
            r is Ok <==> s.spec_bytes().len() <= Self::spec_capacity(),
            r matches Ok(b) ==> {
                &&& b.wf()
                &&& b.bytes() == s.spec_bytes()
                &&& b@ == s@
            },
    {
        let mut string = Self::new();
        match string.try_push_str(s) {
            Ok(()) => {
                proof {
                    assert(string.bytes() =~= s.spec_bytes());
                    assert(string@ =~= s@);
                }
                Ok(string)
            },
            Err(e) => Err(e),
        }
    }

    /// Cuts the buffer down to `size` bytes, or reports `Utf8` and
    /// leaves it untouched when that cut would fall inside a character.
    /// A `size` past the current length does nothing.
    pub fn truncate(&mut self, size: u8) -> (r: Result<(), Utf8>)
        requires
            old(self).wf(),
        ensures
            final(self).wf(),
            ({
                let m = if size < old(self).size {
                    size as int
                } else {
                    old(self).size as int
                };
                &&& r is Ok <==> is_char_boundary(old(self).bytes(), m)
                &&& r is Ok ==> {
                    &&& final(self).bytes() == old(self).bytes().subrange(0, m)
                    &&& final(self)@ == decode_utf8(old(self).bytes().subrange(0, m))
                    &&& final(self).size as int == m
                }
                &&& r is Err ==> *final(self) == *old(self)
            }),
    {
        let len = if self.size < size {
            self.size
        } else {
            size
        };
        if self.at_char_boundary(len) {
            let ghost prev = self.bytes();
            proof {
                vstd::utf8::valid_utf8_split(prev, len as int);
            }
            self.size = len;
            proof {
                assert(self.bytes() =~= prev.subrange(0, len as int));
            }
            Ok(())
        } else {
            Err(Utf8)
        }
    }

    /// Removes and returns the last character, if any.
    pub fn pop(&mut self) -> (r: Option<char>)
        requires
            old(self).wf(),
        ensures
            final(self).wf(),
            old(self).size == 0 ==> r is None && *final(self) == *old(self),
            old(self).size != 0 ==> {
                &&& old(self)@.len() > 0
                &&& r == Some(old(self)@.last())
                &&& final(self)@ == old(self)@.drop_last()
                &&& final(self).bytes() == old(self).bytes().subrange(
                    0,
                    old(self).size - encode_scalar(old(self)@.last() as u32).len(),
                )
            },
    {
        if self.size == 0 {
            return None;
        }
        proof {
            assert(self.array@.subrange(0, self.size as int) == self.bytes());
        }
        let (c, w) = last_char(&self.array, self.size as usize);
        let ghost prev = self.bytes();
        self.size = self.size - w as u8;
        proof {
            assert(self.bytes() =~= prev.subrange(0, prev.len() - w));
        }
        Some(c)
    }

    /// Removes leading and trailing ASCII space bytes — only the literal
    /// space, not other whitespace.
    pub fn trim(&mut self)
        requires
            old(self).wf(),
        ensures
            final(self).wf(),
            final(self).bytes() == trimmed(old(self).bytes()),
            final(self)@ == decode_utf8(trimmed(old(self).bytes())),
            final(self).size as int == trimmed(old(self).bytes()).len(),
    {
        let ghost b = self.bytes();
        let size = self.size;
        proof {
            assert(b.subrange(0, size as int) =~= b);
        }
        let mut start: u8 = 0;
        while start < size && self.array[start as usize] == 0x20
            invariant
                start <= size,
                *self == *old(self),
                old(self).wf(),
                size == self.size,
                b == self.bytes(),
                trim_start_bytes(b) == trim_start_bytes(
                    b.subrange(start as int, size as int),
                ),
            decreases size - start,
        {
            proof {
                let sub = b.subrange(start as int, size as int);
                assert(sub[0] == self.array@[start as int]);
                assert(sub.drop_first() =~= b.subrange(start + 1, size as int));
            }
            start = start + 1;
        }
        proof {
            let sub = b.subrange(start as int, size as int);
            if start < size {
                assert(sub[0] == self.array@[start as int]);
            } else {
                assert(sub =~= Seq::<u8>::empty());
            }
            assert(trim_start_bytes(b) == sub);
        }
        let mut end: u8 = size;
        while end > start && self.array[(end - 1) as usize] == 0x20
            invariant
                start <= end <= size,
                *self == *old(self),
                old(self).wf(),
                size == self.size,
                b == self.bytes(),
                trim_start_bytes(b) == b.subrange(start as int, size as int),
                trim_end_bytes(trim_start_bytes(b)) == trim_end_bytes(
                    b.subrange(start as int, end as int),
                ),
            decreases end,
        {
            proof {
                let sub = b.subrange(start as int, end as int);
                assert(sub.last() == self.array@[end - 1]);
                assert(sub.drop_last() =~= b.subrange(start as int, end - 1));
            }
            end = end - 1;
        }
        proof {
            let sub = b.subrange(start as int, end as int);
            if end > start {
                assert(sub.last() == self.array@[end - 1]);
            } else {
                assert(sub =~= Seq::<u8>::empty());
            }
            assert(trimmed(b) == sub);
            crate::codec::lemma_trim_start_valid(b);
            crate::codec::lemma_trim_end_valid(trim_start_bytes(b));
        }
        shift_left(&mut self.array, start as usize, 0, end as usize);
        self.size = end - start;
        proof {
            assert(self.bytes() =~= b.subrange(start as int, end as int));
        }
    }

    /// Removes and returns the character at byte index `idx`, shifting
    /// the tail left. Reports `OutOfBounds` past the end and `Utf8` off
    /// a character boundary, leaving the buffer untouched.
    pub fn remove(&mut self, idx: u8) -> (r: Result<char, Error>)
        requires
            old(self).wf(),
        ensures
            final(self).wf(),
            ({
                let b = old(self).bytes();
                let pre = b.subrange(0, idx as int);
                let suf = b.subrange(idx as int, old(self).size as int);
                &&& (r is Ok <==> idx < old(self).size && is_char_boundary(b, idx as int))
                &&& r matches Ok(c) ==> {
                    &&& decode_utf8(suf).len() > 0
                    &&& c == decode_utf8(suf)[0]
                    &&& final(self).bytes() == pre + suf.subrange(
                        encode_scalar(c as u32).len() as int,
                        suf.len() as int,
                    )
                    &&& final(self)@ == decode_utf8(pre) + decode_utf8(suf).drop_first()
                }
                &&& r is Err ==> *final(self) == *old(self)
                &&& r matches Err(e) ==> {
                    &&& (e == Error::OutOfBounds <==> idx >= old(self).size)
                    &&& (e == Error::Utf8 <==> idx < old(self).size && !is_char_boundary(
                        b,
                        idx as int,
                    ))
                }
            }),
    {
        if idx >= self.size {
            return Err(Error::OutOfBounds);
        }
        if !self.at_char_boundary(idx) {
            return Err(Error::Utf8);
        }
        let ghost b = self.bytes();
        let ghost pre = b.subrange(0, idx as int);
        let ghost suf = b.subrange(idx as int, self.size as int);
        proof {
            vstd::utf8::valid_utf8_split(b, idx as int);
            assert(self.array@.subrange(idx as int, self.size as int) =~= suf);
        }
        let (c, w) = first_char(&self.array, idx as usize, self.size as usize);
        proof {
            assert(self.array@.subrange(idx as int + w, self.size as int) =~= suf.subrange(
                w as int,
                suf.len() as int,
            ));
        }
        shift_left(&mut self.array, idx as usize + w, idx as usize, self.size as usize);
        self.size = self.size - w as u8;
        proof {
            assert(self.bytes() =~= pre + suf.subrange(w as int, suf.len() as int));
            lemma_decode_concat(pre, suf.subrange(w as int, suf.len() as int));
        }
        Ok(c)
    }

    /// Inserts well-formed bytes at a character boundary, assuming the
    /// caller has proven the preconditions.
    fn insert_bytes(&mut self, idx: u8, bs: &[u8])
        requires
            old(self).wf(),
            idx <= old(self).size,
            is_char_boundary(old(self).bytes(), idx as int),
            valid_utf8(bs@),
            old(self).size as int + bs@.len() <= Self::spec_capacity(),
        ensures
            final(self).wf(),
            final(self).bytes() == old(self).bytes().subrange(0, idx as int) + bs@ + old(
                self,
            ).bytes().subrange(idx as int, old(self).size as int),
            final(self)@ == decode_utf8(old(self).bytes().subrange(0, idx as int)) + decode_utf8(
                bs@,
            ) + decode_utf8(old(self).bytes().subrange(idx as int, old(self).size as int)),
            final(self).size as int == old(self).size as int + bs@.len(),
    {
        let ghost b = self.bytes();
        let ghost pre = b.subrange(0, idx as int);
        let ghost suf = b.subrange(idx as int, self.size as int);
        proof {
            vstd::utf8::valid_utf8_split(b, idx as int);
        }
        let slen = bs.len();
        shift_right(
            &mut self.array,
            idx as usize,
            idx as usize + slen,
            self.size as usize,
        );
        let ghost mid = self.array@;
        copy_into(&mut self.array, idx as usize, bs);
        self.size = self.size + slen as u8;
        proof {
            let target = pre + bs@ + suf;
            assert forall|k: int| 0 <= k < self.size as int implies self.array@[k]
                == target[k] by {
                if k < idx as int {
                    assert(self.array@[k] == mid[k]);
                    assert(mid[k] == old(self).array@[k]);
                } else if k < idx as int + slen {
                    assert(self.array@[k] == bs@[k - idx]);
                } else {
                    assert(self.array@[k] == mid[k]);
                    assert(mid[k] == old(self).array@[k - slen]);
                }
            }
            assert(self.bytes() =~= pre + bs@ + suf);
            lemma_decode_concat(pre, bs@);
            lemma_decode_concat(pre + bs@, suf);
            assert((pre + bs@) + suf =~= pre + bs@ + suf);
        }
    }

    /// Inserts a character at byte index `idx`, assuming the caller has
    /// proven that `idx` is a boundary and that the result fits.
    pub fn insert_unchecked(&mut self, idx: u8, ch: char)
        requires
            old(self).wf(),
            idx <= old(self).size,
            is_char_boundary(old(self).bytes(), idx as int),
            old(self).size as int + encode_scalar(ch as u32).len() <= Self::spec_capacity(),
        ensures
            final(self).wf(),
            final(self).bytes() == old(self).bytes().subrange(0, idx as int) + encode_scalar(
                ch as u32,
            ) + old(self).bytes().subrange(idx as int, old(self).size as int),
            final(self)@ == decode_utf8(old(self).bytes().subrange(0, idx as int)) + seq![ch]
                + decode_utf8(old(self).bytes().subrange(idx as int, old(self).size as int)),
            final(self).size as int == old(self).size as int + encode_scalar(ch as u32).len(),
    {
        let ghost b = self.bytes();
        let ghost pre = b.subrange(0, idx as int);
        let ghost suf = b.subrange(idx as int, self.size as int);
        proof {
            vstd::utf8::valid_utf8_split(b, idx as int);
            vstd::utf8::char_is_scalar(ch);
            crate::codec::lemma_scalar_encoding(ch as u32);
        }
        let w = char_width(ch);
        shift_right(&mut self.array, idx as usize, idx as usize + w, self.size as usize);
        let ghost mid = self.array@;
        let _ = write_char(&mut self.array, idx as usize, ch);
        self.size = self.size + w as u8;
        proof {
            let enc = encode_scalar(ch as u32);
            let target = pre + enc + suf;
            assert forall|k: int| 0 <= k < self.size as int implies self.array@[k]
                == target[k] by {
                if k < idx as int {
                    assert(self.array@[k] == mid[k]);
                    assert(mid[k] == old(self).array@[k]);
                } else if k < idx as int + w {
                    assert(self.array@[k] == enc[k - idx]);
                } else {
                    assert(self.array@[k] == mid[k]);
                    assert(mid[k] == old(self).array@[k - w]);
                }
            }
            assert(self.bytes() =~= pre + enc + suf);
            lemma_decode_concat(pre, enc);
            lemma_decode_concat(pre + enc, suf);
            assert((pre + enc) + suf =~= pre + enc + suf);
        }
    }

    /// Inserts a character at byte index `idx`, shifting the tail
    /// right. Reports `OutOfBounds` for an index past the end or a
    /// result over capacity, and `Utf8` off a character boundary,
    /// leaving the buffer untouched.
    pub fn try_insert(&mut self, idx: u8, ch: char) -> (r: Result<(), Error>)
        requires
            old(self).wf(),
        ensures
            final(self).wf(),
            ({
                let b = old(self).bytes();
                let fits = old(self).size as int + encode_scalar(ch as u32).len()
                    <= Self::spec_capacity();
                &&& (r is Ok <==> idx <= old(self).size && fits && is_char_boundary(
                    b,
                    idx as int,
                ))
                &&& r is Ok ==> {
                    &&& final(self).bytes() == b.subrange(0, idx as int) + encode_scalar(
                        ch as u32,
                    ) + b.subrange(idx as int, old(self).size as int)
                    &&& final(self)@ == decode_utf8(b.subrange(0, idx as int)) + seq![ch]
                        + decode_utf8(b.subrange(idx as int, old(self).size as int))
                }
                &&& r is Err ==> *final(self) == *old(self)
                &&& r matches Err(e) ==> {
                    &&& (e == Error::OutOfBounds <==> idx > old(self).size || (idx <= old(
                        self,
                    ).size && !fits))
                    &&& (e == Error::Utf8 <==> idx <= old(self).size && fits
                        && !is_char_boundary(b, idx as int))
                }
            }),
    {
        if idx > self.size {
            return Err(Error::OutOfBounds);
        }
        let w = char_width(ch);
        let cap = Self::capacity();
        if w > (cap - self.size) as usize {
            return Err(Error::OutOfBounds);
        }
        if !self.at_char_boundary(idx) {
            return Err(Error::Utf8);
        }
        self.insert_unchecked(idx, ch);
        Ok(())
    }

    /// Inserts a string slice at byte index `idx`, assuming the caller
    /// has proven that `idx` is a boundary and that the result fits.
    pub fn insert_str_unchecked(&mut self, idx: u8, string: &str)
        requires
            old(self).wf(),
            idx <= old(self).size,
            is_char_boundary(old(self).bytes(), idx as int),
            old(self).size as int + string.spec_bytes().len() <= Self::spec_capacity(),
        ensures
            final(self).wf(),
            final(self).bytes() == old(self).bytes().subrange(0, idx as int)
                + string.spec_bytes() + old(self).bytes().subrange(
                idx as int,
                old(self).size as int,
            ),
            final(self)@ == decode_utf8(old(self).bytes().subrange(0, idx as int)) + string@
                + decode_utf8(old(self).bytes().subrange(idx as int, old(self).size as int)),
            final(self).size as int == old(self).size as int + string.spec_bytes().len(),
    {
        let bs = string.as_bytes();
        proof {
            vstd::utf8::encode_utf8_decode_utf8(string@);
        }
        self.insert_bytes(idx, bs);
    }

    /// Inserts a string slice at byte index `idx`, shifting the tail
    /// right. Reports `OutOfBounds` for an index past the end or a
    /// result over capacity, and `Utf8` off a character boundary,
    /// leaving the buffer untouched.
    pub fn try_insert_str(&mut self, idx: u8, s: &str) -> (r: Result<(), Error>)
        requires
            old(self).wf(),
        ensures
            final(self).wf(),
            ({
                let b = old(self).bytes();
                let fits = old(self).size as int + s.spec_bytes().len() <= Self::spec_capacity();
                &&& (r is Ok <==> idx <= old(self).size && fits && is_char_boundary(
                    b,
                    idx as int,
                ))
                &&& r is Ok ==> {
                    &&& final(self).bytes() == b.subrange(0, idx as int) + s.spec_bytes()
                        + b.subrange(idx as int, old(self).size as int)
                    &&& final(self)@ == decode_utf8(b.subrange(0, idx as int)) + s@ + decode_utf8(
                        b.subrange(idx as int, old(self).size as int),
                    )
                }
                &&& r is Err ==> *final(self) == *old(self)
                &&& r matches Err(e) ==> {
                    &&& (e == Error::OutOfBounds <==> idx > old(self).size || (idx <= old(
                        self,
                    ).size && !fits))
                    &&& (e == Error::Utf8 <==> idx <= old(self).size && fits
                        && !is_char_boundary(b, idx as int))
                }
            }),
    {
        if idx > self.size {
            return Err(Error::OutOfBounds);
        }
        let bs = s.as_bytes();
        let cap = Self::capacity();
        if bs.len() > (cap - self.size) as usize {
            return Err(Error::OutOfBounds);
        }
        if !self.at_char_boundary(idx) {
            return Err(Error::Utf8);
        }
        self.insert_str_unchecked(idx, s);
        Ok(())
    }

    /// Inserts at byte index `idx` the longest prefix of a string slice
    /// that fits the remaining capacity, cut at a character boundary.
    /// Reports `OutOfBounds` for an index past the end and `Utf8` off a
    /// character boundary, leaving the buffer untouched.
    pub fn insert_str(&mut self, idx: u8, string: &str) -> (r: Result<(), Error>)
        requires
            old(self).wf(),
        ensures
            final(self).wf(),
            ({
                let b = old(self).bytes();
                let fit = string.spec_bytes().subrange(
                    0,
                    fit_len(string.spec_bytes(), Self::spec_capacity() - old(self).size),
                );
                &&& (r is Ok <==> idx <= old(self).size && is_char_boundary(b, idx as int))
                &&& r is Ok ==> {
                    &&& final(self).bytes() == b.subrange(0, idx as int) + fit + b.subrange(
                        idx as int,
                        old(self).size as int,
                    )
                    &&& final(self)@ == decode_utf8(b.subrange(0, idx as int)) + decode_utf8(fit)
                        + decode_utf8(b.subrange(idx as int, old(self).size as int))
                }
                &&& r is Err ==> *final(self) == *old(self)
                &&& r matches Err(e) ==> {
                    &&& (e == Error::OutOfBounds <==> idx > old(self).size)
                    &&& (e == Error::Utf8 <==> idx <= old(self).size && !is_char_boundary(
                        b,
                        idx as int,
                    ))
                }
            }),
    {
        if idx > self.size {
            return Err(Error::OutOfBounds);
        }
        if !self.at_char_boundary(idx) {
            return Err(Error::Utf8);
        }
        let bs = string.as_bytes();
        let cap = Self::capacity();
        let room = (cap - self.size) as usize;
        proof {
            assert(bs@.subrange(0, bs@.len() as int) =~= string.spec_bytes());
            lemma_fit_len(string.spec_bytes(), room as int);
        }
        let k = fit_point(bs, bs.len(), room);
        let part = vstd::slice::slice_subrange(bs, 0, k);
        self.insert_bytes(idx, part);
        Ok(())
    }

    /// Splits the buffer at byte index `at`: the returned buffer holds
    /// everything from `at` on, and the original is cut down to `at`
    /// bytes. Reports `OutOfBounds` past the end and `Utf8` off a
    /// character boundary, leaving the buffer untouched.
    pub fn split_off(&mut self, at: u8) -> (r: Result<Self, Error>)
        requires
            old(self).wf(),
        ensures
            final(self).wf(),
            ({
                let b = old(self).bytes();
                &&& (r is Ok <==> at <= old(self).size && is_char_boundary(b, at as int))
                &&& r matches Ok(other) ==> {
                    &&& other.wf()
                    &&& other.bytes() == b.subrange(at as int, old(self).size as int)
                    &&& final(self).bytes() == b.subrange(0, at as int)
                    &&& old(self)@ == final(self)@ + other@
                }
                &&& r is Err ==> *final(self) == *old(self)
                &&& r matches Err(e) ==> {
                    &&& (e == Error::OutOfBounds <==> at > old(self).size)
                    &&& (e == Error::Utf8 <==> at <= old(self).size && !is_char_boundary(
                        b,
                        at as int,
                    ))
                }
            }),
    {
        if at > self.size {
            return Err(Error::OutOfBounds);
        }
        if !self.at_char_boundary(at) {
            return Err(Error::Utf8);
        }
        let ghost b = self.bytes();
        proof {
            vstd::utf8::valid_utf8_split(b, at as int);
            vstd::utf8::decode_utf8_split(b, at as int);
        }
        let mut other = Self::new();
        let tail = vstd::slice::slice_subrange(
            self.array.as_slice(),
            at as usize,
            self.size as usize,
        );
        copy_into(&mut other.array, 0, tail);
        other.size = self.size - at;
        self.size = at;
        proof {
            assert(other.bytes() =~= b.subrange(at as int, old(self).size as int));
            assert(self.bytes() =~= b.subrange(0, at as int));
        }
        Ok(other)
    }

    /// Removes the byte range `range` and returns an iterator over the
    /// removed characters. The range is removed before the iterator is
    /// ever stepped; dropping the iterator early changes nothing more.
    /// Reports `OutOfBounds` for a backwards or overlong range and
    /// `Utf8` for ends off character boundaries, leaving the buffer
    /// untouched.
    pub fn drain(&mut self, range: core::ops::Range<u8>) -> (r: Result<Drain<N>, Error>)
        requires
            old(self).wf(),
        ensures
            final(self).wf(),
            ({
                let b = old(self).bytes();
                let start = range.start;
                let end = range.end;
                let bounds_ok = start <= end <= old(self).size;
                &&& (r is Ok <==> bounds_ok && is_char_boundary(b, start as int)
                    && is_char_boundary(b, end as int))
                &&& r matches Ok(d) ==> {
                    &&& d.wf()
                    &&& d.cursor == 0
                    &&& d.extracted.bytes() == b.subrange(start as int, end as int)
                    &&& d@ == decode_utf8(b.subrange(start as int, end as int))
                    &&& final(self).bytes() == b.subrange(0, start as int) + b.subrange(
                        end as int,
                        old(self).size as int,
                    )
                    &&& final(self)@ == decode_utf8(b.subrange(0, start as int)) + decode_utf8(
                        b.subrange(end as int, old(self).size as int),
                    )
                }
                &&& r is Err ==> *final(self) == *old(self)
                &&& r matches Err(e) ==> {
                    &&& (e == Error::OutOfBounds <==> start > end || end > old(self).size)
                    &&& (e == Error::Utf8 <==> bounds_ok && (!is_char_boundary(b, start as int)
                        || !is_char_boundary(b, end as int)))
                }
            }),
    {
        let start = range.start;
        let end = range.end;
        if start > end {
            return Err(Error::OutOfBounds);
        }
        if end > self.size {
            return Err(Error::OutOfBounds);
        }
        if !self.at_char_boundary(start) {
            return Err(Error::Utf8);
        }
        if !self.at_char_boundary(end) {
            return Err(Error::Utf8);
        }
        let ghost b = self.bytes();
        let ghost pre = b.subrange(0, start as int);
        let ghost mid = b.subrange(start as int, end as int);
        let ghost post = b.subrange(end as int, self.size as int);
        proof {
            vstd::utf8::valid_utf8_split(b, start as int);
            vstd::utf8::valid_utf8_split(b, end as int);
            let suffix = b.subrange(start as int, b.len() as int);
            lemma_boundary_suffix(b, start as int, end as int);
            vstd::utf8::valid_utf8_split(suffix, end - start);
            assert(mid =~= suffix.subrange(0, end - start));
        }
        let mut extracted = Self::new();
        let part = vstd::slice::slice_subrange(
            self.array.as_slice(),
            start as usize,
            self.size as usize,
        );
        let part = vstd::slice::slice_subrange(part, 0, (end - start) as usize);
        proof {
            assert(part@ =~= mid);
        }
        copy_into(&mut extracted.array, 0, part);
        extracted.size = end - start;
        shift_left(&mut self.array, end as usize, start as usize, self.size as usize);
        self.size = self.size - (end - start);
        proof {
            assert(extracted.bytes() =~= mid);
            assert(self.bytes() =~= pre + post);
            lemma_decode_concat(pre, post);
            vstd::utf8::is_char_boundary_start_end_of_seq(extracted.bytes());
        }
        let drain = Drain { extracted, cursor: 0 };
        proof {
            assert(drain.remaining_bytes() =~= mid);
        }
        Ok(drain)
    }

    /// Replaces the byte range `r` with the given string, shifting the
    /// tail as needed. Reports `OutOfBounds` for a backwards or overlong
    /// range or when the removed plus inserted bytes, or the resulting
    /// length, exceed the capacity; reports `Utf8` for ends off
    /// character boundaries. On any error the buffer is untouched.
    pub fn replace_range(&mut self, r: core::ops::Range<u8>, with: &str) -> (res: Result<
        (),
        Error,
    >)
        requires
            old(self).wf(),
        ensures
            final(self).wf(),
            ({
                let b = old(self).bytes();
                let start = r.start;
                let end = r.end;
                let wlen = with.spec_bytes().len();
                let bounds_ok = start <= end <= old(self).size;
                let fits = (end - start) + wlen <= Self::spec_capacity() && old(self).size as int
                    - (end - start) + wlen <= Self::spec_capacity();
                &&& (res is Ok <==> bounds_ok && fits && is_char_boundary(b, start as int)
                    && is_char_boundary(b, end as int))
                &&& res is Ok ==> {
                    &&& final(self).bytes() == b.subrange(0, start as int) + with.spec_bytes()
                        + b.subrange(end as int, old(self).size as int)
                    &&& final(self)@ == decode_utf8(b.subrange(0, start as int)) + with@
                        + decode_utf8(b.subrange(end as int, old(self).size as int))
                    &&& final(self).size as int == old(self).size as int - (end - start) + wlen
                }
                &&& res is Err ==> *final(self) == *old(self)
                &&& res matches Err(e) ==> {
                    &&& (e == Error::OutOfBounds <==> start > end || end > old(self).size || (
                    bounds_ok && !fits))
                    &&& (e == Error::Utf8 <==> bounds_ok && fits && (!is_char_boundary(
                        b,
                        start as int,
                    ) || !is_char_boundary(b, end as int)))
                }
            }),
    {
        let start = r.start;
        let end = r.end;
        if start > end {
            return Err(Error::OutOfBounds);
        }
        if end > self.size {
            return Err(Error::OutOfBounds);
        }
        let bs = with.as_bytes();
        let wlen = bs.len();
        let replaced = (end - start) as usize;
        let cap = Self::capacity() as usize;
        if wlen > cap || replaced + wlen > cap {
            return Err(Error::OutOfBounds);
        }
        if self.size as usize - replaced + wlen > cap {
            return Err(Error::OutOfBounds);
        }
        if !self.at_char_boundary(start) {
            return Err(Error::Utf8);
        }
        if !self.at_char_boundary(end) {
            return Err(Error::Utf8);
        }
        let ghost b = self.bytes();
        let ghost pre = b.subrange(0, start as int);
        let ghost post = b.subrange(end as int, self.size as int);
        proof {
            vstd::utf8::valid_utf8_split(b, start as int);
            vstd::utf8::valid_utf8_split(b, end as int);
        }
        let newpos = start as usize + wlen;
        if newpos >= end as usize {
            shift_right(&mut self.array, end as usize, newpos, self.size as usize);
        } else {
            shift_left(&mut self.array, end as usize, newpos, self.size as usize);
        }
        let ghost moved = self.array@;
        copy_into(&mut self.array, start as usize, bs);
        self.size = (self.size as usize - replaced + wlen) as u8;
        proof {
            let target = pre + with.spec_bytes() + post;
            assert forall|k: int| 0 <= k < self.size as int implies self.array@[k]
                == target[k] by {
                if k < start as int {
                    assert(self.array@[k] == moved[k]);
                    assert(moved[k] == old(self).array@[k]);
                } else if k < start as int + wlen {
                    assert(self.array@[k] == bs@[k - start]);
                } else {
                    assert(self.array@[k] == moved[k]);
                    assert(moved[k] == old(self).array@[k + end - start - wlen]);
                }
            }
            assert(self.bytes() =~= target);
            lemma_decode_concat(pre, with.spec_bytes());
            lemma_decode_concat(pre + with.spec_bytes(), post);
            assert((pre + with.spec_bytes()) + post =~= target);
            vstd::utf8::encode_utf8_decode_utf8(with@);
        }
        Ok(())
    }

    /// Builds a buffer from a sequence of string slices, or reports
    /// `OutOfBounds` when their total length exceeds the capacity.
    pub fn try_from_iterator(iter: &[&str]) -> (r: Result<Self, OutOfBounds>)
        ensures
            r is Ok <==> concat_bytes(iter@).len() <= Self::spec_capacity(),
            r matches Ok(b) ==> {
                &&& b.wf()
                &&& b.bytes() == concat_bytes(iter@)
                &&& b@ == decode_utf8(concat_bytes(iter@))
            },
    {
        let mut out = Self::new();
        let n = iter.len();
        let mut i: usize = 0;
        proof {
            assert(iter@.take(0) =~= Seq::<&str>::empty());
        }
        while i < n
            invariant
                i <= n,
                n == iter@.len(),
                out.wf(),
                out.bytes() == concat_bytes(iter@.take(i as int)),
            decreases n - i,
        {
            let s = *vstd::slice::slice_index_get(iter, i);
            match out.try_push_str(s) {
                Ok(()) => {
                    proof {
                        assert(iter@.take(i + 1) =~= iter@.take(i as int).push(iter@[i as int]));
                        lemma_concat_push(iter@.take(i as int), iter@[i as int]);
                    }
                    i = i + 1;
                },
                Err(e) => {
                    proof {
                        lemma_concat_split(iter@, i as int);
                        assert(iter@.skip(i as int)[0] == iter@[i as int]);
                        assert(concat_bytes(iter@.skip(i as int)) == iter@[i as int].spec_bytes()
                            + concat_bytes(iter@.skip(i as int).drop_first()));
                    }
                    return Err(e);
                },
            }
        }
        proof {
            assert(iter@.take(n as int) =~= iter@);
        }
        Ok(out)
    }

    /// Builds a buffer from a sequence of string slices, pushing each
    /// whole while it fits; the first slice that does not fit is cut at
    /// a character boundary and ends the walk.
    pub fn from_iterator(iter: &[&str]) -> (r: Self)
        ensures
            r.wf(),
            r.bytes() == lossy_concat(iter@, Self::spec_capacity()),
            r@ == decode_utf8(lossy_concat(iter@, Self::spec_capacity())),
    {
        let mut out = Self::new();
        let n = iter.len();
        let mut i: usize = 0;
        proof {
            assert(iter@.skip(0) =~= iter@);
        }
        while i < n
            invariant
                i <= n,
                n == iter@.len(),
                out.wf(),
                lossy_concat(iter@, Self::spec_capacity()) == out.bytes() + lossy_concat(
                    iter@.skip(i as int),
                    Self::spec_capacity() - out.size as int,
                ),
            decreases n - i,
        {
            let s = *vstd::slice::slice_index_get(iter, i);
            let ghost tail = iter@.skip(i as int);
            let ghost prevb = out.bytes();
            match out.try_push_str(s) {
                Ok(()) => {
                    proof {
                        assert(tail[0] == iter@[i as int]);
                        assert(tail.drop_first() =~= iter@.skip(i + 1));
                        assert(prevb + (iter@[i as int].spec_bytes() + lossy_concat(
                            iter@.skip(i + 1),
                            Self::spec_capacity() - out.size as int,
                        )) =~= out.bytes() + lossy_concat(
                            iter@.skip(i + 1),
                            Self::spec_capacity() - out.size as int,
                        ));
                    }
                    i = i + 1;
                },
                Err(_) => {
                    out.push_str(s);
                    proof {
                        assert(tail[0] == iter@[i as int]);
                        assert(lossy_concat(iter@, Self::spec_capacity()) =~= out.bytes());
                    }
                    return out;
                },
            }
        }
        proof {
            assert(iter@.skip(n as int) =~= Seq::<&str>::empty());
            assert(out.bytes() + Seq::<u8>::empty() =~= out.bytes());
        }
        out
    }

    /// Builds a buffer from a sequence of characters, or reports
    /// `OutOfBounds` when their total encoded length exceeds the
    /// capacity.
    pub fn try_from_chars(iter: &[char]) -> (r: Result<Self, OutOfBounds>)
        ensures
            r is Ok <==> encode_utf8(iter@).len() <= Self::spec_capacity(),
            r matches Ok(b) ==> {
                &&& b.wf()
                &&& b@ == iter@
                &&& b.bytes() == encode_utf8(iter@)
            },
    {
        let mut out = Self::new();
        let n = iter.len();
        let mut i: usize = 0;
        proof {
            assert(iter@.take(0) =~= Seq::<char>::empty());
        }
        while i < n
            invariant
                i <= n,
                n == iter@.len(),
                out.wf(),
                out@ == iter@.take(i as int),
                out.bytes() == encode_utf8(out@),
            decreases n - i,
        {
            let c = *vstd::slice::slice_index_get(iter, i);
            let ghost prev = out@;
            match out.try_push(c) {
                Ok(()) => {
                    proof {
                        assert(iter@.take(i + 1) =~= iter@.take(i as int).push(c));
                        crate::codec::lemma_encode_push(prev, c);
                    }
                    i = i + 1;
                },
                Err(e) => {
                    proof {
                        crate::codec::lemma_encode_take(iter@, i as int);
                        crate::codec::lemma_encode_take(iter@, i + 1);
                        crate::codec::lemma_encode_push(prev, c);
                        assert(iter@.take(i + 1) =~= iter@.take(i as int).push(c));
                    }
                    return Err(e);
                },
            }
        }
        proof {
            assert(iter@.take(n as int) =~= iter@);
        }
        Ok(out)
    }

    /// Builds a buffer from a sequence of characters, stopping at the
    /// first one that does not fit.
    pub fn from_chars(iter: &[char]) -> (r: Self)
        ensures
            r.wf(),
            r@ == chars_fit(iter@, Self::spec_capacity()),
            r.bytes() == encode_utf8(chars_fit(iter@, Self::spec_capacity())),
    {
        let mut out = Self::new();
        let n = iter.len();
        let mut i: usize = 0;
        proof {
            assert(iter@.skip(0) =~= iter@);
            assert(out@ + Seq::<char>::empty() =~= out@);
        }
        while i < n
            invariant
                i <= n,
                n == iter@.len(),
                out.wf(),
                out.bytes() == encode_utf8(out@),
                chars_fit(iter@, Self::spec_capacity()) == out@ + chars_fit(
                    iter@.skip(i as int),
                    Self::spec_capacity() - out.size as int,
                ),
            decreases n - i,
        {
            let c = *vstd::slice::slice_index_get(iter, i);
            let ghost tail = iter@.skip(i as int);
            let ghost prev = out@;
            match out.try_push(c) {
                Ok(()) => {
                    proof {
                        assert(tail[0] == c);
                        assert(tail.drop_first() =~= iter@.skip(i + 1));
                        crate::codec::lemma_encode_push(prev, c);
                        assert(out@ =~= prev + seq![c]);
                        assert(prev + (seq![c] + chars_fit(
                            iter@.skip(i + 1),
                            Self::spec_capacity() - out.size as int,
                        )) =~= out@ + chars_fit(
                            iter@.skip(i + 1),
                            Self::spec_capacity() - out.size as int,
                        ));
                    }
                    i = i + 1;
                },
                Err(_) => {
                    proof {
                        assert(tail[0] == c);
                        assert(out@ + Seq::<char>::empty() =~= out@);
                    }
                    return out;
                },
            }
        }
        proof {
            assert(iter@.skip(n as int) =~= Seq::<char>::empty());
            assert(out@ + Seq::<char>::empty() =~= out@);
        }
        out
    }

    /// Builds a buffer from raw bytes: reports `Utf8` when they are not
    /// valid UTF-8, else `OutOfBounds` when they exceed the capacity.
    pub fn try_from_utf8(slice: &[u8]) -> (r: Result<Self, Error>)
        ensures
            r is Ok <==> valid_utf8(slice@) && slice@.len() <= Self::spec_capacity(),
            r matches Ok(b) ==> {
                &&& b.wf()
                &&& b.bytes() == slice@
                &&& b@ == decode_utf8(slice@)
            },
            r matches Err(e) ==> {
                &&& (e == Error::Utf8 <==> !valid_utf8(slice@))
                &&& (e == Error::OutOfBounds <==> valid_utf8(slice@) && slice@.len()
                    > Self::spec_capacity())
            },
    {
        match core::str::from_utf8(slice) {
            Ok(s) => match Self::try_from_str(s) {
                Ok(b) => Ok(b),
                Err(_) => Err(Error::OutOfBounds),
            },
            Err(_) => Err(Error::Utf8),
        }
    }

    /// Builds a buffer from raw bytes, cut at a character boundary to
    /// fit the capacity; reports `Utf8` when the bytes are not valid
    /// UTF-8.
    pub fn from_utf8(slice: &[u8]) -> (r: Result<Self, Utf8>)
        ensures
            r is Ok <==> valid_utf8(slice@),
            r matches Ok(b) ==> {
                &&& b.wf()
                &&& b.bytes() == slice@.subrange(0, fit_len(slice@, Self::spec_capacity()))
                &&& b@ == decode_utf8(slice@.subrange(0, fit_len(slice@, Self::spec_capacity())))
            },
    {
        match core::str::from_utf8(slice) {
            Ok(s) => Ok(Self::from_str_truncate(s)),
            Err(_) => Err(Utf8),
        }
    }

    /// Keeps only the characters the predicate accepts, in order.
    pub fn retain<F: Fn(char) -> bool>(&mut self, f: F)
        requires
            old(self).wf(),
            forall|c: char| #[trigger] f.requires((c,)),
            forall|c: char| !(#[trigger] f.ensures((c,), true) && f.ensures((c,), false)),
        ensures
            final(self).wf(),
            final(self)@ == old(self)@.filter(|c: char| f.ensures((c,), true)),
    {
        let ghost pred = |c: char| f.ensures((c,), true);
        let src = vstd::slice::slice_to_vec(self.as_bytes());
        let total = self.size as usize;
        self.size = 0;
        let mut i: usize = 0;
        proof {
            assert(self.bytes() =~= Seq::<u8>::empty());
            assert(self@ =~= Seq::<char>::empty());
            assert(src@.subrange(0, 0) =~= Seq::<u8>::empty());
            vstd::utf8::is_char_boundary_start_end_of_seq(src@);
            assert(Seq::<char>::empty().filter(pred) =~= Seq::<char>::empty()) by {
                vstd::seq::Seq::<char>::empty().lemma_filter_len(pred);
            }
        }
        while i < total
            invariant
                i <= total,
                total == old(self).size as int,
                total <= Self::spec_capacity(),
                src@ == old(self).bytes(),
                valid_utf8(src@),
                src@.len() == total,
                is_char_boundary(src@, i as int),
                self.wf(),
                self.array@.len() == N,
                self.size as int <= i,
                self@ == decode_utf8(src@.subrange(0, i as int)).filter(pred),
                forall|c2: char| #[trigger] f.requires((c2,)),
                forall|c2: char| !(#[trigger] f.ensures((c2,), true) && f.ensures((c2,), false)),
                forall|c2: char| #[trigger] pred(c2) == f.ensures((c2,), true),
            decreases total - i,
        {
            proof {
                vstd::utf8::valid_utf8_split(src@, i as int);
            }
            let (c, w) = first_char(&src, i, total);
            let ghost consumed = src@.subrange(0, i as int);
            let ghost prev = self@;
            let keep = f(c);
            if keep {
                let res = self.try_push(c);
                proof {
                    assert(res is Ok);
                    assert(pred(c));
                }
            } else {
                proof {
                    assert(!pred(c));
                }
            }
            proof {
                let rest = vstd::utf8::pop_first_scalar(src@.subrange(i as int, total as int));
                assert(is_char_boundary(rest, 0));
                assert(is_char_boundary(src@.subrange(i as int, total as int), w as int));
                lemma_boundary_suffix(src@, i as int, i + w);
                assert(src@.subrange(0, i + w) =~= consumed + encode_scalar(c as u32));
                vstd::utf8::char_is_scalar(c);
                crate::codec::lemma_scalar_encoding(c as u32);
                lemma_decode_concat(consumed, encode_scalar(c as u32));
                let step = decode_utf8(src@.subrange(0, i + w));
                assert(step =~= decode_utf8(consumed).push(c));
                assert(step =~= decode_utf8(consumed) + seq![c]);
                vstd::seq::Seq::<char>::filter_distributes_over_add(
                    decode_utf8(consumed),
                    seq![c],
                    pred,
                );
                reveal_with_fuel(vstd::seq::Seq::filter, 2);
                assert(seq![c].drop_last() =~= Seq::<char>::empty());
                if pred(c) {
                    assert(seq![c].filter(pred) =~= seq![c]);
                    assert(self@ =~= prev + seq![c]);
                } else {
                    assert(seq![c].filter(pred) =~= Seq::<char>::empty());
                    assert(prev + Seq::<char>::empty() =~= prev);
                }
            }
            i = i + w;
        }
        proof {
            assert(src@.subrange(0, total as int) =~= src@);
        }
    }

    /// Builds a buffer by decoding UTF-16 code units: fails with
    /// `Utf16` at the first invalid unit and with `OutOfBounds` at the
    /// first decoded character that does not fit, whichever the walk
    /// over the units meets first.
    pub fn try_from_utf16(slice: &[u16]) -> (r: Result<Self, Error>)
        ensures
            ({
                let spec = utf16_strict(slice@, Self::spec_capacity());
                &&& (r is Ok <==> spec is Ok)
                &&& r matches Ok(b) ==> spec matches Ok(cs) && b.wf() && b@ == cs && b.bytes()
                    == encode_utf8(cs)
                &&& r matches Err(e) ==> spec == Err::<Seq<char>, Error>(e)
            }),
    {
        let mut out = Self::new();
        let n = slice.len();
        let mut i: usize = 0;
        proof {
            assert(slice@.skip(0) =~= slice@);
            assert(out@ + Seq::<char>::empty() =~= out@);
        }
        while i < n
            invariant
                i <= n,
                n == slice@.len(),
                out.wf(),
                encode_utf8(out@) == out.bytes(),
                utf16_strict(slice@, Self::spec_capacity()) == strict_join(
                    out@,
                    utf16_strict(
                        slice@.skip(i as int),
                        Self::spec_capacity() - out.size as int,
                    ),
                ),
            decreases n - i,
        {
            let ghost tail = slice@.skip(i as int);
            let ghost room = Self::spec_capacity() - out.size as int;
            let (oc, used) = utf16_step(slice, i);
            match oc {
                None => {
                    return Err(Error::Utf16);
                },
                Some(c) => {
                    let ghost prev = out@;
                    match out.try_push(c) {
                        Ok(()) => {
                            proof {
                                assert(tail.skip(used as int) =~= slice@.skip(i + used));
                                crate::codec::lemma_encode_push(prev, c);
                                assert(out@ =~= prev + seq![c]);
                                assert(encode_utf8(out@) =~= out.bytes());
                                let rest = utf16_strict(
                                    slice@.skip(i + used),
                                    Self::spec_capacity() - out.size as int,
                                );
                                if rest is Ok {
                                    assert(prev + (seq![c] + rest->Ok_0) =~= out@ + rest->Ok_0);
                                }
                            }
                            i = i + used;
                        },
                        Err(_) => {
                            return Err(Error::OutOfBounds);
                        },
                    }
                },
            }
        }
        proof {
            assert(slice@.skip(n as int) =~= Seq::<u16>::empty());
            assert(out@ + Seq::<char>::empty() =~= out@);
        }
        Ok(out)
    }

    /// Builds a buffer by decoding UTF-16 code units, stopping quietly
    /// at the first decoded character that does not fit; an invalid
    /// unit seen before that still fails with `Utf16`.
    pub fn from_utf16(slice: &[u16]) -> (r: Result<Self, Utf16>)
        ensures
            ({
                let spec = utf16_trunc(slice@, Self::spec_capacity());
                &&& (r is Ok <==> spec is Ok)
                &&& r matches Ok(b) ==> spec matches Ok(cs) && b.wf() && b@ == cs && b.bytes()
                    == encode_utf8(cs)
                &&& r is Err ==> spec == Err::<Seq<char>, Utf16>(Utf16)
            }),
    {
        let mut out = Self::new();
        let n = slice.len();
        let mut i: usize = 0;
        proof {
            assert(slice@.skip(0) =~= slice@);
            assert(out@ + Seq::<char>::empty() =~= out@);
        }
        while i < n
            invariant
                i <= n,
                n == slice@.len(),
                out.wf(),
                encode_utf8(out@) == out.bytes(),
                utf16_trunc(slice@, Self::spec_capacity()) == trunc_join(
                    out@,
                    utf16_trunc(slice@.skip(i as int), Self::spec_capacity() - out.size as int),
                ),
            decreases n - i,
        {
            let ghost tail = slice@.skip(i as int);
            let (oc, used) = utf16_step(slice, i);
            match oc {
                None => {
                    return Err(Utf16);
                },
                Some(c) => {
                    let ghost prev = out@;
                    match out.try_push(c) {
                        Ok(()) => {
                            proof {
                                assert(tail.skip(used as int) =~= slice@.skip(i + used));
                                crate::codec::lemma_encode_push(prev, c);
                                assert(out@ =~= prev + seq![c]);
                                assert(encode_utf8(out@) =~= out.bytes());
                                let rest = utf16_trunc(
                                    slice@.skip(i + used),
                                    Self::spec_capacity() - out.size as int,
                                );
                                if rest is Ok {
                                    assert(prev + (seq![c] + rest->Ok_0) =~= out@ + rest->Ok_0);
                                }
                            }
                            i = i + used;
                        },
                        Err(_) => {
                            proof {
                                assert(out@ + Seq::<char>::empty() =~= out@);
                            }
                            return Ok(out);
                        },
                    }
                },
            }
        }
        proof {
            assert(slice@.skip(n as int) =~= Seq::<u16>::empty());
            assert(out@ + Seq::<char>::empty() =~= out@);
        }
        Ok(out)
    }

    /// Builds a buffer by decoding UTF-16 code units, replacing each
    /// invalid unit with U+FFFD and stopping at the first character
    /// that does not fit. Never fails.
    pub fn from_utf16_lossy(slice: &[u16]) -> (r: Self)
        ensures
            r.wf(),
            r@ == utf16_lossy(slice@, Self::spec_capacity()),
            r.bytes() == encode_utf8(utf16_lossy(slice@, Self::spec_capacity())),
    {
        let mut out = Self::new();
        let n = slice.len();
        let mut i: usize = 0;
        proof {
            assert(slice@.skip(0) =~= slice@);
            assert(out@ + Seq::<char>::empty() =~= out@);
        }
        while i < n
            invariant
                i <= n,
                n == slice@.len(),
                out.wf(),
                encode_utf8(out@) == out.bytes(),
                utf16_lossy(slice@, Self::spec_capacity()) == out@ + utf16_lossy(
                    slice@.skip(i as int),
                    Self::spec_capacity() - out.size as int,
                ),
            decreases n - i,
        {
            let ghost tail = slice@.skip(i as int);
            let (oc, used) = utf16_step(slice, i);
            let c = match oc {
                Some(c) => c,
                None => {
                    match char::from_u32(0xFFFD) {
                        Some(c2) => {
                            proof {
                                vstd::utf8::char_u32_cast(c2, 0xFFFD);
                            }
                            c2
                        },
                        None => vstd::pervasive::unreached(),
                    }
                },
            };
            let ghost prev = out@;
            match out.try_push(c) {
                Ok(()) => {
                    proof {
                        assert(tail.skip(used as int) =~= slice@.skip(i + used));
                        crate::codec::lemma_encode_push(prev, c);
                        assert(out@ =~= prev + seq![c]);
                        assert(encode_utf8(out@) =~= out.bytes());
                        assert(prev + (seq![c] + utf16_lossy(
                            slice@.skip(i + used),
                            Self::spec_capacity() - out.size as int,
                        )) =~= out@ + utf16_lossy(
                            slice@.skip(i + used),
                            Self::spec_capacity() - out.size as int,
                        ));
                    }
                    i = i + used;
                },
                Err(_) => {
                    proof {
                        assert(out@ + Seq::<char>::empty() =~= out@);
                    }
                    return out;
                },
            }
        }
        proof {
            assert(slice@.skip(n as int) =~= Seq::<u16>::empty());
            assert(out@ + Seq::<char>::empty() =~= out@);
        }
        out
    }

    /// Builds a buffer from the longest prefix of a string slice that
    /// fits, cut at a character boundary.
    pub fn from_str_truncate(string: &str) -> (r: Self)
        ensures
            r.wf(),
            ({
                let fit = string.spec_bytes().subrange(
                    0,
                    fit_len(string.spec_bytes(), Self::spec_capacity()),
                );
                &&& r.bytes() == fit
                &&& r@ == decode_utf8(fit)
            }),
    {
        let mut s = Self::new();
        s.push_str(string);
        proof {
            let fit = string.spec_bytes().subrange(
                0,
                fit_len(string.spec_bytes(), Self::spec_capacity()),
            );
            assert(s.bytes() =~= fit);
        }
        s
    }
}

} // verus!
