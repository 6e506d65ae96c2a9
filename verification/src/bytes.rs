//! Byte offsets into a line.

use crate::cursor::lemma_encode_concat;
use crate::text::lemma_encoding_is_injective;
use vstd::prelude::*;
use vstd::utf8::{
    decode_utf8, decode_utf8_encode_utf8, encode_utf8, encode_utf8_valid_utf8, is_char_boundary,
    is_char_boundary_iff_not_is_continuation_byte, is_char_boundary_start_end_of_seq,
    pop_first_scalar, valid_utf8, valid_utf8_split,
};

verus! {

/// The text between two byte offsets.
pub open spec fn slice(s: Seq<char>, a: int, b: int) -> Seq<char> {
    decode_utf8(encode_utf8(s).subrange(a, b))
}

/// Whether a byte offset lies between two characters of a text.
pub open spec fn boundary(s: Seq<char>, i: int) -> bool {
    0 <= i <= encode_utf8(s).len() && is_char_boundary(encode_utf8(s), i)
}

/// Both ends of a text lie between characters.
pub proof fn lemma_boundary_ends(s: Seq<char>)
    ensures
        boundary(s, 0),
        boundary(s, encode_utf8(s).len() as int),
{
    encode_utf8_valid_utf8(s);
    is_char_boundary_start_end_of_seq(encode_utf8(s));
}

/// An ASCII byte is a character of its own.
pub proof fn lemma_boundary_ascii(s: Seq<char>, i: int)
    requires
        0 <= i < encode_utf8(s).len(),
        encode_utf8(s)[i] < 0x80,
    ensures
        boundary(s, i),
        boundary(s, i + 1),
{
    let b = encode_utf8(s);
    encode_utf8_valid_utf8(s);
    is_char_boundary_iff_not_is_continuation_byte(b, i);
    is_char_boundary_start_end_of_seq(b);
    if i + 1 < b.len() {
        valid_utf8_split(b, i);
        let t = b.subrange(i, b.len() as int);
        assert(valid_utf8(t));
        assert(t[0] == b[i]);
        let u = pop_first_scalar(t);
        assert(valid_utf8(u));
        assert(u[0] == b[i + 1]);
        is_char_boundary_iff_not_is_continuation_byte(b, i + 1);
    }
}

/// The bytes between two boundaries are those of the text between them.
pub proof fn lemma_slice_bytes(s: Seq<char>, a: int, b: int)
    requires
        boundary(s, a),
        boundary(s, b),
        a <= b,
    ensures
        encode_utf8(slice(s, a, b)) == encode_utf8(s).subrange(a, b),
{
    let bytes = encode_utf8(s);
    encode_utf8_valid_utf8(s);
    valid_utf8_split(bytes, b);
    let head = bytes.subrange(0, b);
    lemma_boundary_in_prefix(s, a, b);
    valid_utf8_split(head, a);
    assert(head.subrange(a, head.len() as int) =~= bytes.subrange(a, b));
    decode_utf8_encode_utf8(bytes.subrange(a, b));
}

/// A boundary of a text is a boundary of each prefix that reaches it.
pub proof fn lemma_boundary_in_prefix(s: Seq<char>, a: int, b: int)
    requires
        boundary(s, a),
        boundary(s, b),
        a <= b,
    ensures
        valid_utf8(encode_utf8(s).subrange(0, b)),
        is_char_boundary(encode_utf8(s).subrange(0, b), a),
{
    let bytes = encode_utf8(s);
    encode_utf8_valid_utf8(s);
    valid_utf8_split(bytes, b);
    let head = bytes.subrange(0, b);
    is_char_boundary_start_end_of_seq(head);
    if a < b {
        is_char_boundary_iff_not_is_continuation_byte(bytes, a);
        is_char_boundary_iff_not_is_continuation_byte(head, a);
    }
}

/// Two neighbouring pieces of a text make up the piece that covers both.
pub proof fn lemma_slice_concat(s: Seq<char>, a: int, b: int, c: int)
    requires
        boundary(s, a),
        boundary(s, b),
        boundary(s, c),
        a <= b <= c,
    ensures
        slice(s, a, b) + slice(s, b, c) == slice(s, a, c),
{
    lemma_slice_bytes(s, a, b);
    lemma_slice_bytes(s, b, c);
    lemma_slice_bytes(s, a, c);
    lemma_encode_concat(slice(s, a, b), slice(s, b, c));
    let bytes = encode_utf8(s);
    assert(bytes.subrange(a, b) + bytes.subrange(b, c) =~= bytes.subrange(a, c));
    lemma_encoding_is_injective(slice(s, a, b) + slice(s, b, c), slice(s, a, c));
}

/// The piece that covers a whole text is the text.
pub proof fn lemma_slice_all(s: Seq<char>)
    ensures
        slice(s, 0, encode_utf8(s).len() as int) == s,
{
    assert(encode_utf8(s).subrange(0, encode_utf8(s).len() as int) =~= encode_utf8(s));
    vstd::utf8::encode_utf8_decode_utf8(s);
}

/// A boundary of the text behind an offset is a boundary of the whole text.
pub proof fn lemma_boundary_behind(s: Seq<char>, from: int, i: int)
    requires
        boundary(s, from),
        boundary(slice(s, from, encode_utf8(s).len() as int), i),
    ensures
        boundary(s, from + i),
        encode_utf8(slice(s, from, encode_utf8(s).len() as int)) == encode_utf8(s).subrange(
            from,
            encode_utf8(s).len() as int,
        ),
{
    let bytes = encode_utf8(s);
    let n = bytes.len() as int;
    lemma_boundary_ends(s);
    lemma_slice_bytes(s, from, n);
    let tail = slice(s, from, n);
    encode_utf8_valid_utf8(s);
    encode_utf8_valid_utf8(tail);
    if from + i < n {
        is_char_boundary_iff_not_is_continuation_byte(encode_utf8(tail), i);
        is_char_boundary_iff_not_is_continuation_byte(bytes, from + i);
    }
}

/// The text between two byte offsets.
pub fn slice_text(s: &str, a: usize, b: usize) -> (r: String)
    requires
        a <= b,
        boundary(s@, a as int),
        boundary(s@, b as int),
    ensures
        r@ == slice(s@, a as int, b as int),
        encode_utf8(r@) == encode_utf8(s@).subrange(a as int, b as int),
{
    let (head, _) = s.split_at(b);
    proof {
        lemma_boundary_in_prefix(s@, a as int, b as int);
    }
    let (_, mid) = head.split_at(a);
    let r = mid.to_owned();
    proof {
        assert(encode_utf8(mid@) =~= encode_utf8(s@).subrange(a as int, b as int));
        lemma_slice_bytes(s@, a as int, b as int);
        lemma_encoding_is_injective(mid@, slice(s@, a as int, b as int));
    }
    r
}

} // verus!
