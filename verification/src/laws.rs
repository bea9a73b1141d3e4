//! Properties that relate several operations, stated and proved over
//! the same specification functions their contracts use.

use vstd::prelude::*;

verus! {

use vstd::utf8::decode_utf8;
use vstd::utf8::encode_utf8;
use vstd::utf8::is_char_boundary;
use vstd::utf8::valid_utf8;

use crate::arraystring::ArrayString;
use crate::codec::fit_len;
use crate::codec::lemma_fit_len;
use crate::codec::lemma_trim_end_valid;
use crate::codec::lemma_trim_start_valid;
use crate::codec::trim_end_bytes;
use crate::codec::trim_start_bytes;
use crate::codec::trimmed;

broadcast use vstd::utf8::group_utf8_lib;

/// Round trip: rebuilding a buffer from its own byte view reproduces it
/// exactly. Reading the bytes with `as_bytes` and rebuilding with
/// `from_utf8` — or reading the text with `as_str` and rebuilding with
/// `try_from_str` or `from_str_truncate` — yields, by those functions'
/// contracts, a buffer with the same bytes and the same characters.
pub proof fn lemma_byte_round_trip<const N: usize>(a: ArrayString<N>)
    requires
        a.wf(),
    ensures
        valid_utf8(a.bytes()),
        a.bytes().len() <= ArrayString::<N>::spec_capacity(),
        fit_len(a.bytes(), ArrayString::<N>::spec_capacity()) == a.bytes().len(),
        a.bytes().subrange(0, fit_len(a.bytes(), ArrayString::<N>::spec_capacity()))
            == a.bytes(),
        encode_utf8(a@) == a.bytes(),
        decode_utf8(a.bytes()) == a@,
{
    lemma_fit_len(a.bytes(), ArrayString::<N>::spec_capacity());
    assert(a.bytes().subrange(0, a.bytes().len() as int) =~= a.bytes());
}

/// After removing leading spaces, no leading space is left.
proof fn lemma_trim_start_no_space(b: Seq<u8>)
    ensures
        trim_start_bytes(b).len() > 0 ==> trim_start_bytes(b)[0] != 0x20,
    decreases b.len(),
{
    if b.len() > 0 && b[0] == 0x20 {
        lemma_trim_start_no_space(b.drop_first());
    }
}

/// After removing trailing spaces, no trailing space is left.
proof fn lemma_trim_end_no_space(b: Seq<u8>)
    ensures
        trim_end_bytes(b).len() > 0 ==> trim_end_bytes(b).last() != 0x20,
    decreases b.len(),
{
    if b.len() > 0 && b.last() == 0x20 {
        lemma_trim_end_no_space(b.drop_last());
    }
}

/// Idempotence: trimming an already trimmed buffer changes nothing, so
/// `trim` applied twice equals `trim` applied once.
pub proof fn lemma_trim_idempotent(b: Seq<u8>)
    requires
        valid_utf8(b),
    ensures
        trimmed(trimmed(b)) == trimmed(b),
{
    let a = trim_start_bytes(b);
    let t = trim_end_bytes(a);
    lemma_trim_start_valid(b);
    lemma_trim_end_valid(a);
    lemma_trim_start_no_space(b);
    lemma_trim_end_no_space(a);
    if t.len() > 0 {
        assert(t[0] == a[0]);
        assert(t[0] != 0x20);
    }
    assert(trim_start_bytes(t) == t);
    assert(trim_end_bytes(t) == t);
}

/// Idempotence: truncating to `n` a second time succeeds and changes
/// nothing — the cut point is then the whole length, always a boundary.
pub proof fn lemma_truncate_idempotent(b: Seq<u8>, n: int)
    requires
        valid_utf8(b),
        0 <= n,
        is_char_boundary(b, if n < b.len() { n } else { b.len() as int }),
    ensures
        ({
            let m = if n < b.len() {
                n
            } else {
                b.len() as int
            };
            let t = b.subrange(0, m);
            &&& t.len() == m
            &&& n >= t.len()
            &&& is_char_boundary(t, t.len() as int)
            &&& t.subrange(0, t.len() as int) == t
        }),
{
    let m = if n < b.len() {
        n
    } else {
        b.len() as int
    };
    let t = b.subrange(0, m);
    vstd::utf8::valid_utf8_split(b, m);
    vstd::utf8::is_char_boundary_start_end_of_seq(t);
    assert(t.subrange(0, t.len() as int) =~= t);
}

} // verus!
