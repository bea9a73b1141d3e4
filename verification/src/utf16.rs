//! UTF-16 decoding for the conversion constructors: the standard
//! surrogate-pair algorithm, with strict, truncating and lossy policies
//! described as functions from the code units and the available room to
//! the decoded characters.

use vstd::prelude::*;

verus! {

use vstd::utf8::encode_scalar;
use vstd::utf8::is_scalar;

use crate::error::Error;
use crate::error::Utf16;

/// A unit in the low-surrogate range, the second half of a pair.
pub open spec fn is_low_surrogate(x: u16) -> bool {
    0xDC00 <= x < 0xE000
}

/// A unit in the high-surrogate range, the first half of a pair.
pub open spec fn is_high_surrogate(x: u16) -> bool {
    0xD800 <= x < 0xDC00
}

/// Number of code units the first decoded character consumes. An
/// invalid unit consumes one; only a full surrogate pair consumes two.
pub open spec fn utf16_units(u: Seq<u16>) -> int
    recommends
        u.len() > 0,
{
    if is_high_surrogate(u[0]) && u.len() >= 2 && is_low_surrogate(u[1]) {
        2
    } else {
        1
    }
}

/// The first character decoded from the sequence, or nothing when it
/// starts with an unpaired or inverted surrogate.
pub open spec fn utf16_first(u: Seq<u16>) -> Option<char>
    recommends
        u.len() > 0,
{
    if !is_high_surrogate(u[0]) && !is_low_surrogate(u[0]) {
        Some((u[0] as u32) as char)
    } else if is_high_surrogate(u[0]) && u.len() >= 2 && is_low_surrogate(u[1]) {
        Some(
            ((0x10000 + (u[0] as u32 - 0xD800) * 0x400 + (u[1] as u32 - 0xDC00)) as u32) as char,
        )
    } else {
        None
    }
}

/// Strict decoding into at most `room` encoded bytes: all the decoded
/// characters, or the first error met walking the units in order —
/// `Utf16` for an invalid unit, `OutOfBounds` for a character that does
/// not fit.
pub open spec fn utf16_strict(u: Seq<u16>, room: int) -> Result<Seq<char>, Error>
    decreases u.len(),
{
    if u.len() == 0 {
        Ok(Seq::<char>::empty())
    } else {
        match utf16_first(u) {
            None => Err(Error::Utf16),
            Some(c) => {
                if encode_scalar(c as u32).len() > room {
                    Err(Error::OutOfBounds)
                } else {
                    match utf16_strict(
                        u.skip(utf16_units(u)),
                        room - encode_scalar(c as u32).len(),
                    ) {
                        Ok(rest) => Ok(seq![c] + rest),
                        Err(e) => Err(e),
                    }
                }
            },
        }
    }
}

/// Truncating decoding: stops quietly at the first character that does
/// not fit, but still reports an invalid unit seen before that point.
pub open spec fn utf16_trunc(u: Seq<u16>, room: int) -> Result<Seq<char>, Utf16>
    decreases u.len(),
{
    if u.len() == 0 {
        Ok(Seq::<char>::empty())
    } else {
        match utf16_first(u) {
            None => Err(Utf16),
            Some(c) => {
                if encode_scalar(c as u32).len() > room {
                    Ok(Seq::<char>::empty())
                } else {
                    match utf16_trunc(
                        u.skip(utf16_units(u)),
                        room - encode_scalar(c as u32).len(),
                    ) {
                        Ok(rest) => Ok(seq![c] + rest),
                        Err(e) => Err(e),
                    }
                }
            },
        }
    }
}

/// Lossy decoding: an invalid unit becomes the replacement character,
/// and decoding stops at the first character that does not fit.
pub open spec fn utf16_lossy(u: Seq<u16>, room: int) -> Seq<char>
    decreases u.len(),
{
    if u.len() == 0 {
        Seq::<char>::empty()
    } else {
        let c = match utf16_first(u) {
            Some(c) => c,
            None => (0xFFFD as u32) as char,
        };
        if encode_scalar(c as u32).len() > room {
            Seq::<char>::empty()
        } else {
            seq![c] + utf16_lossy(u.skip(utf16_units(u)), room - encode_scalar(c as u32).len())
        }
    }
}

/// Prepends already-decoded characters to the outcome of decoding the
/// rest, strict policy.
pub open spec fn strict_join(done: Seq<char>, rest: Result<Seq<char>, Error>) -> Result<
    Seq<char>,
    Error,
> {
    match rest {
        Ok(cs) => Ok(done + cs),
        Err(e) => Err(e),
    }
}

/// Prepends already-decoded characters to the outcome of decoding the
/// rest, truncating policy.
pub open spec fn trunc_join(done: Seq<char>, rest: Result<Seq<char>, Utf16>) -> Result<
    Seq<char>,
    Utf16,
> {
    match rest {
        Ok(cs) => Ok(done + cs),
        Err(e) => Err(e),
    }
}

/// Decodes the character starting at unit `i`, returning it (or nothing
/// for an invalid unit) together with the number of units consumed.
pub(crate) fn utf16_step(u: &[u16], i: usize) -> (r: (Option<char>, usize))
    requires
        i < u@.len(),
    ensures
        r.1 == utf16_units(u@.skip(i as int)),
        1 <= r.1 <= 2,
        i + r.1 <= u@.len(),
        r.0 == utf16_first(u@.skip(i as int)),
{
    let ghost tail = u@.skip(i as int);
    proof {
        assert(tail[0] == u@[i as int]);
        if tail.len() >= 2 {
            assert(tail[1] == u@[i + 1]);
        }
    }
    let a = *vstd::slice::slice_index_get(u, i);
    if a < 0xD800 || a >= 0xE000 {
        proof {
            assert(is_scalar(a as u32));
        }
        match char::from_u32(a as u32) {
            Some(c) => {
                proof {
                    vstd::utf8::char_u32_cast(c, a as u32);
                }
                (Some(c), 1)
            },
            None => vstd::pervasive::unreached(),
        }
    } else if a < 0xDC00 {
        if i < u.len() - 1 {
            let b = *vstd::slice::slice_index_get(u, i + 1);
            if b >= 0xDC00 && b < 0xE000 {
                let v = 0x10000 + (a as u32 - 0xD800) * 0x400 + (b as u32 - 0xDC00);
                proof {
                    assert(is_scalar(v));
                }
                match char::from_u32(v) {
                    Some(c) => {
                        proof {
                            vstd::utf8::char_u32_cast(c, v);
                        }
                        (Some(c), 2)
                    },
                    None => vstd::pervasive::unreached(),
                }
            } else {
                (None, 1)
            }
        } else {
            (None, 1)
        }
    } else {
        (None, 1)
    }
}

} // verus!
