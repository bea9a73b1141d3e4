//! Character-level helpers for the byte buffer: verified encoders and
//! decoders for single characters, overlap-safe byte moves, and lemmas
//! connecting byte subranges to the character sequences they encode.

use vstd::prelude::*;

verus! {

use vstd::string::StringSliceAdditionalSpecFns;
use vstd::utf8::codepoint_width_1;
use vstd::utf8::codepoint_width_2;
use vstd::utf8::codepoint_width_3;
use vstd::utf8::codepoint_width_4;
use vstd::utf8::decode_first_codepoint;
use vstd::utf8::decode_first_scalar;
use vstd::utf8::decode_last_scalar;
use vstd::utf8::decode_utf8;
use vstd::utf8::encode_scalar;
use vstd::utf8::encode_utf8;
use vstd::utf8::has_width_1_encoding;
use vstd::utf8::has_width_2_encoding;
use vstd::utf8::has_width_3_encoding;
use vstd::utf8::has_width_4_encoding;
use vstd::utf8::is_char_boundary;
use vstd::utf8::is_continuation_byte;
use vstd::utf8::is_leading_byte_width_1;
use vstd::utf8::is_leading_byte_width_2;
use vstd::utf8::is_leading_byte_width_3;
use vstd::utf8::is_leading_byte_width_4;
use vstd::utf8::is_scalar;
use vstd::utf8::last_continuation_byte;
use vstd::utf8::leading_byte_width_1;
use vstd::utf8::leading_byte_width_2;
use vstd::utf8::leading_byte_width_3;
use vstd::utf8::leading_byte_width_4;
use vstd::utf8::length_of_first_scalar;
use vstd::utf8::length_of_last_scalar;
use vstd::utf8::not_overlong_encoding;
use vstd::utf8::not_surrogate;
use vstd::utf8::pop_first_scalar;
use vstd::utf8::second_last_continuation_byte;
use vstd::utf8::take_first_scalar;
use vstd::utf8::third_last_continuation_byte;
use vstd::utf8::valid_first_scalar;
use vstd::utf8::valid_leading_and_continuation_bytes_first_codepoint;
use vstd::utf8::valid_utf8;

broadcast use vstd::utf8::group_utf8_lib;

// ---------------------------------------------------------------------------
// Bit-level facts about the encoding of one scalar, one lemma per width.
// Each one says: the bytes produced for a scalar of this width have the
// right leading/continuation shape, and decoding them gives the scalar
// back; and conversely, bytes of this shape decode to a scalar of this
// width whose re-encoding is those same bytes.
// ---------------------------------------------------------------------------
proof fn bits_width_1(s: u32, b1: u8)
    by (bit_vector)
    requires
        has_width_1_encoding(s) && b1 == leading_byte_width_1(s) || is_leading_byte_width_1(b1)
            && s == codepoint_width_1(b1),
    ensures
        is_leading_byte_width_1(b1),
        !is_continuation_byte(b1),
        has_width_1_encoding(s),
        s == codepoint_width_1(b1),
        b1 == leading_byte_width_1(s),
{
}

proof fn bits_width_2(s: u32, b1: u8, b2: u8)
    by (bit_vector)
    requires
        has_width_2_encoding(s) && b1 == leading_byte_width_2(s) && b2 == last_continuation_byte(s)
            || is_leading_byte_width_2(b1) && is_continuation_byte(b2) && s == codepoint_width_2(
            b1,
            b2,
        ) && not_overlong_encoding(s, 2),
    ensures
        is_leading_byte_width_2(b1),
        !is_continuation_byte(b1),
        is_continuation_byte(b2),
        has_width_2_encoding(s),
        s == codepoint_width_2(b1, b2),
        b1 == leading_byte_width_2(s),
        b2 == last_continuation_byte(s),
{
}

proof fn bits_width_3(s: u32, b1: u8, b2: u8, b3: u8)
    by (bit_vector)
    requires
        has_width_3_encoding(s) && b1 == leading_byte_width_3(s) && b2
            == second_last_continuation_byte(s) && b3 == last_continuation_byte(s)
            || is_leading_byte_width_3(b1) && is_continuation_byte(b2) && is_continuation_byte(b3)
            && s == codepoint_width_3(b1, b2, b3) && not_overlong_encoding(s, 3) && not_surrogate(
            s,
        ),
    ensures
        is_leading_byte_width_3(b1),
        !is_continuation_byte(b1),
        is_continuation_byte(b2),
        is_continuation_byte(b3),
        has_width_3_encoding(s),
        s == codepoint_width_3(b1, b2, b3),
        b1 == leading_byte_width_3(s),
        b2 == second_last_continuation_byte(s),
        b3 == last_continuation_byte(s),
{
}

proof fn bits_width_4(s: u32, b1: u8, b2: u8, b3: u8, b4: u8)
    by (bit_vector)
    requires
        has_width_4_encoding(s) && b1 == leading_byte_width_4(s) && b2
            == third_last_continuation_byte(s) && b3 == second_last_continuation_byte(s) && b4
            == last_continuation_byte(s) || is_leading_byte_width_4(b1) && is_continuation_byte(b2)
            && is_continuation_byte(b3) && is_continuation_byte(b4) && s == codepoint_width_4(
            b1,
            b2,
            b3,
            b4,
        ) && not_overlong_encoding(s, 4),
    ensures
        is_leading_byte_width_4(b1),
        !is_continuation_byte(b1),
        is_continuation_byte(b2),
        is_continuation_byte(b3),
        is_continuation_byte(b4),
        has_width_4_encoding(s),
        s == codepoint_width_4(b1, b2, b3, b4),
        b1 == leading_byte_width_4(s),
        b2 == third_last_continuation_byte(s),
        b3 == second_last_continuation_byte(s),
        b4 == last_continuation_byte(s),
{
}

// ---------------------------------------------------------------------------
// Structure of a single encoded scalar.
// ---------------------------------------------------------------------------
/// The encoding of a scalar starts with a leading byte, continues with
/// continuation bytes, is itself a well-formed first scalar, and decodes
/// back to the scalar.
pub proof fn lemma_scalar_encoding(s: u32)
    requires
        is_scalar(s),
    ensures
        ({
            let e = encode_scalar(s);
            &&& 1 <= e.len() <= 4
            &&& !is_continuation_byte(e[0])
            &&& forall|j: int| 1 <= j < e.len() ==> is_continuation_byte(#[trigger] e[j])
            &&& valid_first_scalar(e)
            &&& length_of_first_scalar(e) == e.len()
            &&& decode_first_scalar(e) == s
            &&& valid_utf8(e)
            &&& decode_utf8(e) =~= seq![s as char]
        }),
{
    let e = encode_scalar(s);
    if has_width_1_encoding(s) {
        bits_width_1(s, e[0]);
    } else if has_width_2_encoding(s) {
        bits_width_2(s, e[0], e[1]);
        assert(!is_leading_byte_width_1(e[0]) && !is_leading_byte_width_3(e[0])
            && !is_leading_byte_width_4(e[0]));
    } else if has_width_3_encoding(s) {
        bits_width_3(s, e[0], e[1], e[2]);
        assert(!is_leading_byte_width_1(e[0]) && !is_leading_byte_width_2(e[0])
            && !is_leading_byte_width_4(e[0]));
    } else {
        bits_width_4(s, e[0], e[1], e[2], e[3]);
        assert(!is_leading_byte_width_1(e[0]) && !is_leading_byte_width_2(e[0])
            && !is_leading_byte_width_3(e[0]));
    }
    assert(valid_leading_and_continuation_bytes_first_codepoint(e));
    assert(decode_first_codepoint(e) == s);
    assert(length_of_first_scalar(e) == e.len());
    assert(not_overlong_encoding(s, e.len() as int));
    assert(not_surrogate(s));
    assert(valid_first_scalar(e));
    assert(pop_first_scalar(e) =~= Seq::<u8>::empty());
    assert(valid_utf8(pop_first_scalar(e)));
    assert(valid_utf8(e));
    assert(decode_utf8(e) == seq![s as char] + decode_utf8(pop_first_scalar(e)));
    assert(decode_utf8(pop_first_scalar(e)) =~= Seq::<char>::empty());
    assert((s as char) as u32 == s) by {
        vstd::utf8::char_u32_cast((s as char), s);
    }
}

/// A well-formed first scalar in a byte sequence decodes to a scalar
/// value whose re-encoding is exactly the bytes it occupies.
pub proof fn lemma_first_scalar_decoding(b: Seq<u8>)
    requires
        valid_first_scalar(b),
    ensures
        ({
            let s = decode_first_scalar(b);
            let w = length_of_first_scalar(b);
            &&& is_scalar(s)
            &&& 1 <= w <= 4
            &&& w <= b.len()
            &&& encode_scalar(s) =~= b.subrange(0, w)
            &&& encode_scalar(s).len() == w
        }),
{
    let s = decode_first_scalar(b);
    let w = length_of_first_scalar(b);
    if is_leading_byte_width_1(b[0]) {
        bits_width_1(s, b[0]);
    } else if is_leading_byte_width_2(b[0]) {
        assert(b.len() >= 2 && is_continuation_byte(b[1]));
        bits_width_2(s, b[0], b[1]);
    } else if is_leading_byte_width_3(b[0]) {
        assert(b.len() >= 3 && is_continuation_byte(b[1]) && is_continuation_byte(b[2]));
        bits_width_3(s, b[0], b[1], b[2]);
    } else {
        assert(b.len() >= 4 && is_continuation_byte(b[1]) && is_continuation_byte(b[2])
            && is_continuation_byte(b[3]));
        bits_width_4(s, b[0], b[1], b[2], b[3]);
    }
}

// ---------------------------------------------------------------------------
// How the first scalar behaves under concatenation.
// ---------------------------------------------------------------------------
/// Extending a byte sequence on the right does not change its first
/// scalar.
pub proof fn lemma_first_scalar_prefix(a: Seq<u8>, b: Seq<u8>)
    requires
        valid_first_scalar(a),
    ensures
        valid_first_scalar(a + b),
        length_of_first_scalar(a + b) == length_of_first_scalar(a),
        decode_first_scalar(a + b) == decode_first_scalar(a),
        pop_first_scalar(a + b) =~= pop_first_scalar(a) + b,
{
    let c = a + b;
    assert(c[0] == a[0]);
    assert(forall|i: int| 0 <= i < a.len() ==> c[i] == a[i]);
    assert(length_of_first_scalar(a) <= a.len());
}

/// The first scalar of a non-empty well-formed sequence, with the
/// validity of both its parts.
pub proof fn lemma_valid_unfold(b: Seq<u8>)
    requires
        valid_utf8(b),
        b.len() > 0,
    ensures
        valid_first_scalar(b),
        1 <= length_of_first_scalar(b) <= 4,
        length_of_first_scalar(b) <= b.len(),
        valid_utf8(pop_first_scalar(b)),
        valid_utf8(take_first_scalar(b)),
        encode_scalar(decode_first_scalar(b)) =~= take_first_scalar(b),
        is_scalar(decode_first_scalar(b)),
        decode_utf8(b).len() > 0,
        decode_utf8(b)[0] == decode_first_scalar(b) as char,
        decode_utf8(b).drop_first() == decode_utf8(pop_first_scalar(b)),
    decreases b.len(),
{
    lemma_first_scalar_decoding(b);
    lemma_scalar_encoding(decode_first_scalar(b));
    assert(valid_utf8(take_first_scalar(b)));
}

// ---------------------------------------------------------------------------
// Boundaries and decoding under concatenation.
// ---------------------------------------------------------------------------
/// The seam between two well-formed byte sequences is a character
/// boundary of their concatenation.
pub proof fn lemma_boundary_concat(a: Seq<u8>, b: Seq<u8>)
    requires
        valid_utf8(a),
        valid_utf8(b),
    ensures
        valid_utf8(a + b),
        is_char_boundary(a + b, a.len() as int),
    decreases a.len(),
{
    vstd::utf8::valid_utf8_concat(a, b);
    if a.len() == 0 {
        assert(a + b =~= b);
    } else {
        lemma_valid_unfold(a);
        lemma_first_scalar_prefix(a, b);
        let w = length_of_first_scalar(a);
        lemma_boundary_concat(pop_first_scalar(a), b);
        assert(is_char_boundary(a + b, a.len() as int) == is_char_boundary(
            pop_first_scalar(a) + b,
            a.len() - w,
        ));
        assert(pop_first_scalar(a).len() == a.len() - w);
    }
}

/// Decoding distributes over concatenation of well-formed sequences.
pub proof fn lemma_decode_concat(a: Seq<u8>, b: Seq<u8>)
    requires
        valid_utf8(a),
        valid_utf8(b),
    ensures
        valid_utf8(a + b),
        decode_utf8(a + b) =~= decode_utf8(a) + decode_utf8(b),
    decreases a.len(),
{
    lemma_boundary_concat(a, b);
    let c = a + b;
    vstd::utf8::decode_utf8_split(c, a.len() as int);
    assert(c.subrange(0, a.len() as int) =~= a);
    assert(c.subrange(a.len() as int, c.len() as int) =~= b);
}

/// Inside a prefix cut at a boundary, the boundaries are the same as in
/// the whole sequence.
pub proof fn lemma_boundary_prefix(b: Seq<u8>, j: int, i: int)
    requires
        valid_utf8(b),
        is_char_boundary(b, j),
        0 <= i <= j <= b.len(),
    ensures
        valid_utf8(b.subrange(0, j)),
        is_char_boundary(b.subrange(0, j), i) == is_char_boundary(b, i),
{
    vstd::utf8::valid_utf8_split(b, j);
    let p = b.subrange(0, j);
    if i == j {
        vstd::utf8::is_char_boundary_start_end_of_seq(p);
    } else {
        vstd::utf8::is_char_boundary_iff_not_is_continuation_byte(b, i);
        vstd::utf8::is_char_boundary_iff_not_is_continuation_byte(p, i);
        assert(p[i] == b[i]);
    }
}

/// Inside a suffix cut at a boundary, the boundaries are those of the
/// whole sequence shifted by the cut.
pub proof fn lemma_boundary_suffix(b: Seq<u8>, j: int, i: int)
    requires
        valid_utf8(b),
        is_char_boundary(b, j),
        0 <= j,
        j <= i <= b.len(),
    ensures
        valid_utf8(b.subrange(j, b.len() as int)),
        is_char_boundary(b.subrange(j, b.len() as int), i - j) == is_char_boundary(b, i),
{
    vstd::utf8::valid_utf8_split(b, j);
    let s = b.subrange(j, b.len() as int);
    if i == b.len() {
        vstd::utf8::is_char_boundary_start_end_of_seq(s);
        vstd::utf8::is_char_boundary_start_end_of_seq(b);
    } else {
        vstd::utf8::is_char_boundary_iff_not_is_continuation_byte(b, i);
        vstd::utf8::is_char_boundary_iff_not_is_continuation_byte(s, i - j);
        assert(s[i - j] == b[i]);
    }
}

// ---------------------------------------------------------------------------
// Encoding a character sequence, element by element.
// ---------------------------------------------------------------------------
/// Appending one character appends its scalar encoding.
pub proof fn lemma_encode_push(s: Seq<char>, c: char)
    ensures
        encode_utf8(s.push(c)) =~= encode_utf8(s) + encode_scalar(c as u32),
    decreases s.len(),
{
    let t = s.push(c);
    if s.len() == 0 {
        assert(t.drop_first() =~= Seq::<char>::empty());
        assert(t[0] == c);
        assert(encode_utf8(t.drop_first()) =~= Seq::<u8>::empty());
        assert(encode_utf8(t) == encode_scalar(c as u32) + encode_utf8(t.drop_first()));
        assert(encode_utf8(s) =~= Seq::<u8>::empty());
    } else {
        assert(t[0] == s[0]);
        assert(t.drop_first() =~= s.drop_first().push(c));
        lemma_encode_push(s.drop_first(), c);
        assert(encode_utf8(t) == encode_scalar(s[0] as u32) + encode_utf8(t.drop_first()));
        assert(encode_utf8(t.drop_first()) == encode_utf8(s.drop_first()) + encode_scalar(
            c as u32,
        ));
        assert(encode_utf8(s) == encode_scalar(s[0] as u32) + encode_utf8(s.drop_first()));
    }
}

/// The encoding of a prefix is a prefix of the encoding, so it is never
/// longer.
pub proof fn lemma_encode_take(s: Seq<char>, i: int)
    requires
        0 <= i <= s.len(),
    ensures
        encode_utf8(s.take(i)).len() <= encode_utf8(s).len(),
        i < s.len() ==> encode_utf8(s.take(i + 1)) == encode_utf8(s.take(i)) + encode_scalar(
            s[i] as u32,
        ),
    decreases s.len() - i,
{
    if i < s.len() {
        assert(s.take(i + 1) =~= s.take(i).push(s[i]));
        lemma_encode_push(s.take(i), s[i]);
        lemma_encode_take(s, i + 1);
    } else {
        assert(s.take(i) =~= s);
    }
}

// ---------------------------------------------------------------------------
// The last scalar of a well-formed sequence.
// ---------------------------------------------------------------------------
/// The last character of a well-formed sequence occupies exactly its
/// trailing scalar bytes; cutting them off removes exactly that one
/// character.
#[verifier::rlimit(50)]
pub proof fn lemma_last_scalar(b: Seq<u8>)
    requires
        valid_utf8(b),
        b.len() > 0,
    ensures
        ({
            let w = length_of_last_scalar(b);
            let s = decode_last_scalar(b);
            let head = b.subrange(0, b.len() - w);
            &&& 1 <= w <= 4
            &&& w <= b.len()
            &&& is_scalar(s)
            &&& encode_scalar(s) =~= b.subrange(b.len() - w, b.len() as int)
            &&& is_char_boundary(b, b.len() - w)
            &&& valid_utf8(head)
            &&& decode_utf8(b).len() > 0
            &&& decode_utf8(b) =~= decode_utf8(head).push(s as char)
            &&& decode_utf8(b).last() == s as char
            &&& decode_utf8(head) =~= decode_utf8(b).drop_last()
        }),
    decreases b.len(),
{
    let n = b.len() as int;
    lemma_valid_unfold(b);
    let w1 = length_of_first_scalar(b);
    let first = decode_first_scalar(b);
    let tail = pop_first_scalar(b);
    let head1 = take_first_scalar(b);
    lemma_scalar_encoding(first);
    if tail.len() == 0 {
        // the whole sequence is a single scalar
        assert(b =~= head1);
        assert(b =~= encode_scalar(first));
        let e = encode_scalar(first);
        // walking back over continuation bytes finds the leading byte
        assert(forall|j: int| 1 <= j < e.len() ==> is_continuation_byte(#[trigger] e[j]));
        assert(length_of_last_scalar(b) == w1);
        let s = decode_last_scalar(b);
        assert(s == decode_first_codepoint(b));
        assert(decode_utf8(b) =~= seq![first as char]);
        assert(decode_utf8(b.subrange(0, 0)) =~= Seq::<char>::empty());
        assert(decode_utf8(b) =~= decode_utf8(b.subrange(0, n - w1)).push(first as char));
    } else {
        lemma_last_scalar(tail);
        let tn = tail.len() as int;
        let w = length_of_last_scalar(tail);
        let s = decode_last_scalar(tail);
        // the trailing bytes of b are the trailing bytes of its tail
        assert(forall|j: int| 0 <= j < tn ==> tail[j] == b[w1 + j]);
        lemma_scalar_encoding(s);
        let e = encode_scalar(s);
        assert(e =~= tail.subrange(tn - w, tn));
        assert(forall|j: int| 1 <= j < w ==> is_continuation_byte(#[trigger] b[n - w + j]));
        assert(!is_continuation_byte(b[n - w]));
        assert(b[n - 1] == tail[tn - 1]);
        assert(w >= 2 ==> b[n - 2] == tail[tn - 2]);
        assert(w >= 3 ==> b[n - 3] == tail[tn - 3]);
        assert(length_of_last_scalar(b) == w) by {
            if w == 1 {
                assert(!is_continuation_byte(b[n - 1]));
            } else if w == 2 {
                assert(is_continuation_byte(b[n - 1]) && !is_continuation_byte(b[n - 2]));
            } else if w == 3 {
                assert(is_continuation_byte(b[n - 1]) && is_continuation_byte(b[n - 2])
                    && !is_continuation_byte(b[n - 3]));
            } else {
                assert(is_continuation_byte(b[n - 1]) && is_continuation_byte(b[n - 2])
                    && is_continuation_byte(b[n - 3]) && !is_continuation_byte(b[n - 4]));
            }
        }
        assert(decode_last_scalar(b) == s) by {
            assert(b.subrange(n - w, n) =~= tail.subrange(tn - w, tn));
            if w == 1 {
            } else if w == 2 {
            } else if w == 3 {
            } else {
                assert(b[n - 4] == tail[tn - 4]);
            }
        }
        // the head of b is its first scalar plus the head of the tail
        let tail_head = tail.subrange(0, tn - w);
        assert(b.subrange(0, n - w) =~= head1 + tail_head);
        lemma_decode_concat(head1, tail_head);
        assert(is_char_boundary(b, n - w) == is_char_boundary(tail, tn - w));
        assert(decode_utf8(head1) =~= seq![first as char]);
        assert(decode_utf8(b) =~= seq![first as char] + decode_utf8(tail));
        assert(decode_utf8(tail) =~= decode_utf8(tail_head).push(s as char));
        assert(decode_utf8(b) =~= decode_utf8(b.subrange(0, n - w)).push(s as char));
    }
}

/// A suffix cut at a boundary before the end has the same last scalar as
/// the whole sequence.
pub proof fn lemma_last_scalar_suffix(b: Seq<u8>, cur: int)
    requires
        valid_utf8(b),
        is_char_boundary(b, cur),
        0 <= cur < b.len(),
    ensures
        ({
            let n = b.len() as int;
            let w = length_of_last_scalar(b);
            let rem = b.subrange(cur, n);
            &&& valid_utf8(rem)
            &&& rem.len() > 0
            &&& cur <= n - w
            &&& length_of_last_scalar(rem) == w
            &&& decode_last_scalar(rem) == decode_last_scalar(b)
        }),
{
    vstd::utf8::valid_utf8_split(b, cur);
    lemma_last_scalar(b);
    let n = b.len() as int;
    let w = length_of_last_scalar(b);
    let s = decode_last_scalar(b);
    lemma_scalar_encoding(s);
    let e = encode_scalar(s);
    if cur > n - w {
        vstd::utf8::is_char_boundary_iff_not_is_continuation_byte(b, cur);
        assert(b[cur] == e[cur - (n - w)]);
        assert(is_continuation_byte(b[cur]));
        assert(false);
    }
    let rem = b.subrange(cur, n);
    let m = rem.len() as int;
    assert(forall|j: int| 0 <= j < m ==> rem[j] == b[cur + j]);
    assert(rem[m - 1] == b[n - 1]);
    assert(forall|j: int| 1 <= j < w ==> is_continuation_byte(#[trigger] b[n - w + j]));
    assert(!is_continuation_byte(b[n - w]));
    if w == 1 {
        assert(!is_continuation_byte(rem[m - 1]));
    } else if w == 2 {
        assert(rem[m - 2] == b[n - 2]);
        assert(is_continuation_byte(rem[m - 1]) && !is_continuation_byte(rem[m - 2]));
    } else if w == 3 {
        assert(rem[m - 2] == b[n - 2] && rem[m - 3] == b[n - 3]);
        assert(is_continuation_byte(rem[m - 1]) && is_continuation_byte(rem[m - 2])
            && !is_continuation_byte(rem[m - 3]));
    } else {
        assert(rem[m - 2] == b[n - 2] && rem[m - 3] == b[n - 3] && rem[m - 4] == b[n - 4]);
        assert(is_continuation_byte(rem[m - 1]) && is_continuation_byte(rem[m - 2])
            && is_continuation_byte(rem[m - 3]) && !is_continuation_byte(rem[m - 4]));
    }
    assert(length_of_last_scalar(rem) == w);
    assert(decode_last_scalar(rem) == s);
}

// ---------------------------------------------------------------------------
// Byte totals of string sequences, for the slice-iterator constructors.
// ---------------------------------------------------------------------------
/// All the bytes of the given string slices, in order.
pub open spec fn concat_bytes<'a>(ss: Seq<&'a str>) -> Seq<u8>
    decreases ss.len(),
{
    if ss.len() == 0 {
        Seq::<u8>::empty()
    } else {
        ss[0].spec_bytes() + concat_bytes(ss.drop_first())
    }
}

/// Appending one more slice appends its bytes.
pub proof fn lemma_concat_push<'a>(ss: Seq<&'a str>, s: &'a str)
    ensures
        concat_bytes(ss.push(s)) =~= concat_bytes(ss) + s.spec_bytes(),
    decreases ss.len(),
{
    let t = ss.push(s);
    if ss.len() == 0 {
        assert(t.drop_first() =~= Seq::<&'a str>::empty());
        assert(t[0] == s);
        assert(concat_bytes(t) == s.spec_bytes() + concat_bytes(t.drop_first()));
        assert(concat_bytes(t.drop_first()) =~= Seq::<u8>::empty());
        assert(concat_bytes(ss) =~= Seq::<u8>::empty());
    } else {
        assert(t[0] == ss[0]);
        assert(t.drop_first() =~= ss.drop_first().push(s));
        lemma_concat_push(ss.drop_first(), s);
        assert(concat_bytes(t) == ss[0].spec_bytes() + concat_bytes(t.drop_first()));
        assert(concat_bytes(t.drop_first()) == concat_bytes(ss.drop_first()) + s.spec_bytes());
        assert(concat_bytes(ss) == ss[0].spec_bytes() + concat_bytes(ss.drop_first()));
    }
}

/// The total splits at any point into the bytes of a prefix of the
/// slices and the bytes of the rest.
pub proof fn lemma_concat_split<'a>(ss: Seq<&'a str>, i: int)
    requires
        0 <= i <= ss.len(),
    ensures
        concat_bytes(ss) =~= concat_bytes(ss.take(i)) + concat_bytes(ss.skip(i)),
    decreases i,
{
    if i == 0 {
        assert(ss.take(0) =~= Seq::<&'a str>::empty());
        assert(ss.skip(0) =~= ss);
    } else {
        let df = ss.drop_first();
        lemma_concat_split(df, i - 1);
        assert(ss.take(i)[0] == ss[0]);
        assert(ss.take(i).drop_first() =~= df.take(i - 1));
        assert(ss.skip(i) =~= df.skip(i - 1));
        assert(concat_bytes(ss) == ss[0].spec_bytes() + concat_bytes(df));
        assert(concat_bytes(ss.take(i)) == ss[0].spec_bytes() + concat_bytes(df.take(i - 1)));
    }
}

/// Bytes collected by pushing each slice in turn while it fits whole,
/// then the fitting prefix of the first slice that does not, and
/// nothing further.
pub open spec fn lossy_concat<'a>(ss: Seq<&'a str>, room: int) -> Seq<u8>
    decreases ss.len(),
{
    if ss.len() == 0 {
        Seq::<u8>::empty()
    } else if ss[0].spec_bytes().len() <= room {
        ss[0].spec_bytes() + lossy_concat(ss.drop_first(), room - ss[0].spec_bytes().len())
    } else {
        ss[0].spec_bytes().subrange(0, fit_len(ss[0].spec_bytes(), room))
    }
}

/// Characters collected one by one while each fits the remaining room.
pub open spec fn chars_fit(cs: Seq<char>, room: int) -> Seq<char>
    decreases cs.len(),
{
    if cs.len() == 0 {
        Seq::<char>::empty()
    } else if encode_scalar(cs[0] as u32).len() <= room {
        seq![cs[0]] + chars_fit(cs.drop_first(), room - encode_scalar(cs[0] as u32).len())
    } else {
        Seq::<char>::empty()
    }
}

// ---------------------------------------------------------------------------
// Trimming the single ASCII space byte from both ends.
// ---------------------------------------------------------------------------
/// Bytes left after removing leading ASCII spaces.
pub open spec fn trim_start_bytes(b: Seq<u8>) -> Seq<u8>
    decreases b.len(),
{
    if b.len() > 0 && b[0] == 0x20 {
        trim_start_bytes(b.drop_first())
    } else {
        b
    }
}

/// Bytes left after removing trailing ASCII spaces.
pub open spec fn trim_end_bytes(b: Seq<u8>) -> Seq<u8>
    decreases b.len(),
{
    if b.len() > 0 && b.last() == 0x20 {
        trim_end_bytes(b.drop_last())
    } else {
        b
    }
}

/// Bytes left after removing ASCII spaces from both ends.
pub open spec fn trimmed(b: Seq<u8>) -> Seq<u8> {
    trim_end_bytes(trim_start_bytes(b))
}

/// Removing leading spaces keeps the bytes well formed: a leading space
/// is a whole one-byte character.
pub proof fn lemma_trim_start_valid(b: Seq<u8>)
    requires
        valid_utf8(b),
    ensures
        valid_utf8(trim_start_bytes(b)),
        trim_start_bytes(b).len() <= b.len(),
        forall|i: int|
            0 <= i < trim_start_bytes(b).len() ==> #[trigger] trim_start_bytes(b)[i] == b[b.len()
                - trim_start_bytes(b).len() + i],
    decreases b.len(),
{
    if b.len() > 0 && b[0] == 0x20 {
        lemma_valid_unfold(b);
        assert(is_leading_byte_width_1(b[0]));
        assert(length_of_first_scalar(b) == 1);
        assert(pop_first_scalar(b) =~= b.drop_first());
        lemma_trim_start_valid(b.drop_first());
    }
}

/// Removing trailing spaces keeps the bytes well formed: a trailing
/// space is a whole one-byte character.
pub proof fn lemma_trim_end_valid(b: Seq<u8>)
    requires
        valid_utf8(b),
    ensures
        valid_utf8(trim_end_bytes(b)),
        trim_end_bytes(b).len() <= b.len(),
        forall|i: int|
            0 <= i < trim_end_bytes(b).len() ==> #[trigger] trim_end_bytes(b)[i] == b[i],
    decreases b.len(),
{
    if b.len() > 0 && b.last() == 0x20 {
        lemma_last_scalar(b);
        assert(!is_continuation_byte(b.last()));
        assert(length_of_last_scalar(b) == 1);
        assert(b.subrange(0, b.len() - 1) =~= b.drop_last());
        lemma_trim_end_valid(b.drop_last());
    }
}

// ---------------------------------------------------------------------------
// The two standard-library facts this module takes on trust.
// ---------------------------------------------------------------------------
#[verifier::external_type_specification]
#[verifier::external_body]
pub struct ExUtf8Error(core::str::Utf8Error);

/// Relies on core::str::from_utf8: it succeeds exactly on well-formed
/// UTF-8 and returns a view of those same bytes.
pub assume_specification[ core::str::from_utf8 ](v: &[u8]) -> (r: Result<
    &str,
    core::str::Utf8Error,
>)
    ensures
        r is Ok <==> valid_utf8(v@),
        r matches Ok(s) ==> s.spec_bytes() == v@,
;

/// Relies on char::from_u32: it returns the character with the given
/// scalar value, and nothing for surrogates or values past the Unicode
/// range.
pub assume_specification[ char::from_u32 ](v: u32) -> (r: Option<char>)
    ensures
        r is Some <==> is_scalar(v),
        r matches Some(c) ==> c as u32 == v,
;

// ---------------------------------------------------------------------------
// Truncation to the nearest character boundary.
// ---------------------------------------------------------------------------
/// Length of the longest prefix of `b` that ends on a character boundary
/// and holds at most `room` bytes.
pub open spec fn fit_len(b: Seq<u8>, room: int) -> int
    recommends
        valid_utf8(b),
    decreases room,
{
    if room <= 0 {
        0
    } else if room >= b.len() {
        b.len() as int
    } else if is_char_boundary(b, room) {
        room
    } else {
        fit_len(b, room - 1)
    }
}

/// The truncation point is a boundary, fits the room, and moves only when
/// the room cuts a character.
pub proof fn lemma_fit_len(b: Seq<u8>, room: int)
    requires
        valid_utf8(b),
    ensures
        0 <= fit_len(b, room),
        fit_len(b, room) <= b.len(),
        room >= 0 ==> fit_len(b, room) <= room,
        is_char_boundary(b, fit_len(b, room)),
        room >= b.len() ==> fit_len(b, room) == b.len(),
        valid_utf8(b.subrange(0, fit_len(b, room))),
    decreases room,
{
    vstd::utf8::is_char_boundary_start_end_of_seq(b);
    if room <= 0 {
    } else if room >= b.len() {
    } else if is_char_boundary(b, room) {
    } else {
        lemma_fit_len(b, room - 1);
    }
    vstd::utf8::valid_utf8_split(b, fit_len(b, room));
}

/// True when the byte at `k` has the shape of a continuation byte.
fn continuation_at(v: &[u8], k: usize) -> (r: bool)
    requires
        k < v@.len(),
    ensures
        r == is_continuation_byte(v@[k as int]),
{
    let byte = *vstd::slice::slice_index_get(v, k);
    byte >= 0x80 && byte <= 0xbf
}

/// Finds the truncation point of the live prefix `b[..end]` for `room`
/// available bytes.
pub(crate) fn fit_point(v: &[u8], end: usize, room: usize) -> (k: usize)
    requires
        end <= v@.len(),
        valid_utf8(v@.subrange(0, end as int)),
    ensures
        k as int == fit_len(v@.subrange(0, end as int), room as int),
{
    let b = Ghost(v@.subrange(0, end as int));
    let mut k: usize = if room >= end {
        end
    } else {
        room
    };
    proof {
        if room < end {
            assert(fit_len(b@, room as int) == fit_len(b@, k as int));
        }
    }
    while k < end && k > 0 && continuation_at(v, k)
        invariant
            k <= end <= v@.len(),
            valid_utf8(b@),
            b@ == v@.subrange(0, end as int),
            fit_len(b@, k as int) == fit_len(b@, room as int),
        decreases k,
    {
        proof {
            vstd::utf8::is_char_boundary_iff_not_is_continuation_byte(b@, k as int);
            assert(b@[k as int] == v@[k as int]);
            assert(!is_char_boundary(b@, k as int));
            assert(fit_len(b@, k as int) == fit_len(b@, k - 1));
        }
        k = k - 1;
    }
    proof {
        vstd::utf8::is_char_boundary_start_end_of_seq(b@);
        if k < end && k > 0 {
            vstd::utf8::is_char_boundary_iff_not_is_continuation_byte(b@, k as int);
            assert(b@[k as int] == v@[k as int]);
        }
        assert(fit_len(b@, k as int) == k);
    }
    k
}

// ---------------------------------------------------------------------------
// Byte-shift engine: overlap-safe in-place moves inside the buffer.
// ---------------------------------------------------------------------------
/// Moves the bytes `v[src..end]` down so that they begin at `dst`,
/// closing a gap. Only the bytes `v[dst..dst + (end - src)]` change.
pub(crate) fn shift_left(v: &mut Vec<u8>, src: usize, dst: usize, end: usize)
    requires
        dst <= src <= end <= old(v)@.len(),
    ensures
        final(v)@.len() == old(v)@.len(),
        forall|k: int| 0 <= k < dst ==> final(v)@[k] == old(v)@[k],
        forall|k: int|
            dst <= k < dst + (end - src) ==> #[trigger] final(v)@[k] == old(v)@[k + src - dst],
        forall|k: int| dst + (end - src) <= k < final(v)@.len() ==> final(v)@[k] == old(v)@[k],
{
    let count = end - src;
    let mut i: usize = 0;
    while i < count
        invariant
            i <= count,
            count == end - src,
            dst <= src <= end <= v@.len(),
            v@.len() == old(v)@.len(),
            forall|k: int| 0 <= k < dst ==> v@[k] == old(v)@[k],
            forall|k: int| dst <= k < dst + i ==> #[trigger] v@[k] == old(v)@[k + src - dst],
            forall|k: int| dst + i <= k < v@.len() ==> v@[k] == old(v)@[k],
        decreases count - i,
    {
        let b = v[src + i];
        assert(b == old(v)@[src + i]);
        v[dst + i] = b;
        i = i + 1;
    }
}

/// Moves the bytes `v[src..end]` up so that they begin at `dst`, opening
/// a gap. Only the bytes `v[dst..dst + (end - src)]` change.
pub(crate) fn shift_right(v: &mut Vec<u8>, src: usize, dst: usize, end: usize)
    requires
        src <= dst,
        src <= end <= old(v)@.len(),
        dst + (end - src) <= old(v)@.len(),
    ensures
        final(v)@.len() == old(v)@.len(),
        forall|k: int| 0 <= k < dst ==> final(v)@[k] == old(v)@[k],
        forall|k: int|
            dst <= k < dst + (end - src) ==> #[trigger] final(v)@[k] == old(v)@[k + src - dst],
        forall|k: int| dst + (end - src) <= k < final(v)@.len() ==> final(v)@[k] == old(v)@[k],
{
    let vlen = v.len();
    let count = end - src;
    let mut i: usize = count;
    while i > 0
        invariant
            i <= count,
            count == end - src,
            src <= dst,
            src <= end <= v@.len(),
            dst + count <= vlen,
            vlen == v@.len(),
            v@.len() == old(v)@.len(),
            forall|k: int| 0 <= k < dst + i ==> v@[k] == old(v)@[k],
            forall|k: int|
                dst + i <= k < dst + count ==> #[trigger] v@[k] == old(v)@[k + src - dst],
            forall|k: int| dst + count <= k < v@.len() ==> v@[k] == old(v)@[k],
        decreases i,
    {
        i = i - 1;
        let b = v[src + i];
        assert(b == old(v)@[src + i]);
        v[dst + i] = b;
    }
}

/// Copies `src` into `v` starting at `idx`. Only those bytes change.
pub(crate) fn copy_into(v: &mut Vec<u8>, idx: usize, src: &[u8])
    requires
        idx + src@.len() <= old(v)@.len(),
    ensures
        final(v)@.len() == old(v)@.len(),
        forall|k: int| 0 <= k < idx ==> final(v)@[k] == old(v)@[k],
        forall|k: int| idx <= k < idx + src@.len() ==> #[trigger] final(v)@[k] == src@[k - idx],
        forall|k: int| idx + src@.len() <= k < final(v)@.len() ==> final(v)@[k] == old(v)@[k],
{
    let vlen = v.len();
    let n = src.len();
    let mut i: usize = 0;
    while i < n
        invariant
            i <= n,
            n == src@.len(),
            idx + n <= vlen,
            vlen == v@.len(),
            v@.len() == old(v)@.len(),
            forall|k: int| 0 <= k < idx ==> v@[k] == old(v)@[k],
            forall|k: int| idx <= k < idx + i ==> #[trigger] v@[k] == src@[k - idx],
            forall|k: int| idx + i <= k < v@.len() ==> v@[k] == old(v)@[k],
        decreases n - i,
    {
        let b = *vstd::slice::slice_index_get(src, i);
        v[idx + i] = b;
        i = i + 1;
    }
}

// ---------------------------------------------------------------------------
// One character in, one character out.
// ---------------------------------------------------------------------------
/// Number of bytes the character occupies when encoded.
pub(crate) fn char_width(c: char) -> (w: usize)
    ensures
        w == encode_scalar(c as u32).len(),
        1 <= w <= 4,
{
    proof {
        vstd::utf8::char_is_scalar(c);
    }
    let v = c as u32;
    if v < 0x80 {
        1
    } else if v < 0x800 {
        2
    } else if v < 0x10000 {
        3
    } else {
        4
    }
}

/// Writes the encoding of `c` at `idx`, leaving all other bytes alone,
/// and returns its width.
pub(crate) fn write_char(v: &mut Vec<u8>, idx: usize, c: char) -> (w: usize)
    requires
        idx + encode_scalar(c as u32).len() <= old(v)@.len(),
    ensures
        w == encode_scalar(c as u32).len(),
        final(v)@.len() == old(v)@.len(),
        forall|k: int| 0 <= k < idx ==> final(v)@[k] == old(v)@[k],
        forall|k: int|
            idx <= k < idx + w ==> #[trigger] final(v)@[k] == encode_scalar(c as u32)[k - idx],
        forall|k: int| idx + w <= k < final(v)@.len() ==> final(v)@[k] == old(v)@[k],
{
    proof {
        vstd::utf8::char_is_scalar(c);
    }
    let vlen = v.len();
    let s = c as u32;
    proof {
        assert(s & 0x7F <= 0x7F && s & 0x3F <= 0x3F && (s >> 6) & 0x1F <= 0x1F && (s >> 6) & 0x3F
            <= 0x3F && (s >> 12) & 0x0F <= 0x0F && (s >> 12) & 0x3F <= 0x3F && (s >> 18) & 0x7
            <= 0x7) by (bit_vector);
    }
    if s < 0x80 {
        v[idx] = (s & 0x7F) as u8;
        1
    } else if s < 0x800 {
        v[idx] = 0xC0 | ((s >> 6) & 0x1F) as u8;
        v[idx + 1] = 0x80 | (s & 0x3F) as u8;
        2
    } else if s < 0x10000 {
        v[idx] = 0xE0 | ((s >> 12) & 0x0F) as u8;
        v[idx + 1] = 0x80 | ((s >> 6) & 0x3F) as u8;
        v[idx + 2] = 0x80 | (s & 0x3F) as u8;
        3
    } else {
        v[idx] = 0xF0 | ((s >> 18) & 0x7) as u8;
        v[idx + 1] = 0x80 | ((s >> 12) & 0x3F) as u8;
        v[idx + 2] = 0x80 | ((s >> 6) & 0x3F) as u8;
        v[idx + 3] = 0x80 | (s & 0x3F) as u8;
        4
    }
}

/// Decodes the character starting at byte `start` of the well-formed
/// range `v[start..end]`, returning it with its width.
pub(crate) fn first_char(v: &Vec<u8>, start: usize, end: usize) -> (r: (char, usize))
    requires
        start < end <= v@.len(),
        valid_utf8(v@.subrange(start as int, end as int)),
    ensures
        ({
            let suf = v@.subrange(start as int, end as int);
            let rest = v@.subrange(start + r.1, end as int);
            &&& r.1 == length_of_first_scalar(suf)
            &&& 1 <= r.1 <= 4
            &&& start + r.1 <= end
            &&& r.0 as u32 == decode_first_scalar(suf)
            &&& encode_scalar(r.0 as u32) =~= v@.subrange(start as int, start + r.1)
            &&& valid_utf8(rest)
            &&& decode_utf8(suf).len() > 0
            &&& decode_utf8(suf)[0] == r.0
            &&& decode_utf8(rest) =~= decode_utf8(suf).drop_first()
        }),
{
    let ghost suf = v@.subrange(start as int, end as int);
    proof {
        lemma_valid_unfold(suf);
        lemma_first_scalar_decoding(suf);
        assert(suf[0] == v@[start as int]);
        assert(forall|j: int| 0 <= j < suf.len() ==> suf[j] == v@[start + j]);
    }
    let b0 = v[start];
    let (s, w): (u32, usize) = if b0 < 0x80 {
        ((b0 & 0x7F) as u32, 1)
    } else if b0 < 0xE0 {
        let b1 = v[start + 1];
        ((((b0 & 0x1F) as u32) << 6) | (b1 & 0x3F) as u32, 2)
    } else if b0 < 0xF0 {
        let b1 = v[start + 1];
        let b2 = v[start + 2];
        ((((b0 & 0x0F) as u32) << 12) | (((b1 & 0x3F) as u32) << 6) | (b2 & 0x3F) as u32, 3)
    } else {
        let b1 = v[start + 1];
        let b2 = v[start + 2];
        let b3 = v[start + 3];
        (
            (((b0 & 0x07) as u32) << 18) | (((b1 & 0x3F) as u32) << 12) | (((b2 & 0x3F) as u32)
                << 6) | (b3 & 0x3F) as u32,
            4,
        )
    };
    proof {
        assert(s == decode_first_scalar(suf));
        assert(w == length_of_first_scalar(suf));
    }
    match char::from_u32(s) {
        Some(c) => {
            proof {
                vstd::utf8::char_u32_cast(c, s);
                assert(decode_utf8(suf)[0] == decode_first_scalar(suf) as char);
                assert(v@.subrange(start + w, end as int) =~= pop_first_scalar(suf));
            }
            (c, w)
        },
        None => vstd::pervasive::unreached(),
    }
}

/// Decodes the character that ends the well-formed range `v[..end]`,
/// returning it with its width.
pub(crate) fn last_char(v: &Vec<u8>, end: usize) -> (r: (char, usize))
    requires
        0 < end <= v@.len(),
        valid_utf8(v@.subrange(0, end as int)),
    ensures
        ({
            let b = v@.subrange(0, end as int);
            let head = v@.subrange(0, end - r.1);
            &&& r.1 == length_of_last_scalar(b)
            &&& 1 <= r.1 <= end
            &&& r.0 as u32 == decode_last_scalar(b)
            &&& encode_scalar(r.0 as u32) =~= v@.subrange(end - r.1, end as int)
            &&& is_char_boundary(b, end - r.1)
            &&& valid_utf8(head)
            &&& decode_utf8(b).len() > 0
            &&& decode_utf8(b).last() == r.0
            &&& decode_utf8(head) =~= decode_utf8(b).drop_last()
        }),
{
    let ghost b = v@.subrange(0, end as int);
    proof {
        lemma_last_scalar(b);
        assert(forall|j: int| 0 <= j < end ==> b[j] == v@[j]);
    }
    let bn = v[end - 1];
    let (s, w): (u32, usize) = if !(bn >= 0x80 && bn <= 0xbf) {
        ((bn & 0x7F) as u32, 1)
    } else {
        let b2 = v[end - 2];
        if !(b2 >= 0x80 && b2 <= 0xbf) {
            ((((b2 & 0x1F) as u32) << 6) | (bn & 0x3F) as u32, 2)
        } else {
            let b3 = v[end - 3];
            if !(b3 >= 0x80 && b3 <= 0xbf) {
                (
                    (((b3 & 0x0F) as u32) << 12) | (((b2 & 0x3F) as u32) << 6) | (bn & 0x3F) as u32,
                    3,
                )
            } else {
                let b4 = v[end - 4];
                (
                    (((b4 & 0x07) as u32) << 18) | (((b3 & 0x3F) as u32) << 12) | (((b2 & 0x3F)
                        as u32) << 6) | (bn & 0x3F) as u32,
                    4,
                )
            }
        }
    };
    proof {
        assert(s == decode_last_scalar(b));
        assert(w == length_of_last_scalar(b));
    }
    match char::from_u32(s) {
        Some(c) => {
            proof {
                vstd::utf8::char_u32_cast(c, s);
                assert(v@.subrange(end - w, end as int) =~= b.subrange(end - w, end as int));
                assert(v@.subrange(0, end - w) =~= b.subrange(0, end - w));
            }
            (c, w)
        },
        None => vstd::pervasive::unreached(),
    }
}

} // verus!
