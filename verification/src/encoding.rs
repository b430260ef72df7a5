//! Facts about UTF-8 that let byte-level scanning answer questions about
//! characters.
//!
//! A string's bytes are `encode_utf8` of its view. The lemmas here say how
//! that encoding behaves under concatenation and splitting, and how a byte
//! below `0x80` in the encoding corresponds to an ASCII character in the view.

use vstd::prelude::*;
use vstd::utf8::*;

verus! {

/// Encoding distributes over concatenation.
pub proof fn lemma_encode_concat(a: Seq<char>, b: Seq<char>)
    ensures
        encode_utf8(a + b) == encode_utf8(a) + encode_utf8(b),
    decreases a.len(),
{
    if a.len() == 0 {
        assert(a + b =~= b);
        assert(encode_utf8(a) + encode_utf8(b) =~= encode_utf8(b));
    } else {
        lemma_encode_concat(a.drop_first(), b);
        assert((a + b).drop_first() =~= a.drop_first() + b);
        assert(encode_utf8(a + b) =~= encode_utf8(a) + encode_utf8(b));
    }
}

/// Two sequences of characters with the same encoding are the same sequence.
pub proof fn lemma_encode_injective(a: Seq<char>, b: Seq<char>)
    requires
        encode_utf8(a) == encode_utf8(b),
    ensures
        a == b,
{
    encode_utf8_decode_utf8(a);
    encode_utf8_decode_utf8(b);
}

/// Every character takes at least one byte.
pub proof fn lemma_encode_len(chars: Seq<char>)
    ensures
        chars.len() <= encode_utf8(chars).len(),
    decreases chars.len(),
{
    if chars.len() > 0 {
        lemma_encode_len(chars.drop_first());
    }
}

/// An ASCII character is encoded as the single byte of the same value.
pub proof fn lemma_encode_ascii(c: char)
    requires
        c as u32 <= 0x7f,
    ensures
        encode_utf8(seq![c]) == seq![c as u8],
{
    let scalar = c as u32;
    assert(leading_byte_width_1(scalar) == scalar as u8) by (bit_vector)
        requires
            scalar <= 0x7f,
    ;
    assert(seq![c].drop_first() =~= Seq::<char>::empty());
    assert(encode_utf8(seq![c].drop_first()) =~= Seq::<u8>::empty()) by {
        reveal_with_fuel(encode_utf8, 1);
    }
    assert(encode_utf8(seq![c]) =~= seq![c as u8]);
}

/// Cutting a string's bytes in two cuts its characters in two: if `left` and
/// `right` encode to the two parts of `whole`'s encoding, then `whole` is
/// `left` followed by `right`.
pub proof fn lemma_split_views(whole: Seq<char>, left: Seq<char>, right: Seq<char>, at: int)
    requires
        0 <= at <= encode_utf8(whole).len(),
        encode_utf8(left) == encode_utf8(whole).subrange(0, at),
        encode_utf8(right) == encode_utf8(whole).subrange(at, encode_utf8(whole).len() as int),
    ensures
        whole == left + right,
{
    lemma_encode_concat(left, right);
    assert(encode_utf8(left) + encode_utf8(right) =~= encode_utf8(whole));
    lemma_encode_injective(left + right, whole);
}

/// A byte below `0x80` in valid UTF-8 is a whole character: a character
/// starts at its index and another one, or the end, follows directly.
pub proof fn lemma_ascii_byte_boundaries(bytes: Seq<u8>, at: int)
    requires
        valid_utf8(bytes),
        0 <= at < bytes.len(),
        bytes[at] <= 0x7f,
    ensures
        is_char_boundary(bytes, at),
        is_char_boundary(bytes, at + 1),
{
    is_char_boundary_iff_not_is_continuation_byte(bytes, at);
    if at + 1 == bytes.len() {
        is_char_boundary_start_end_of_seq(bytes);
    } else {
        valid_utf8_split(bytes, at);
        let suffix = bytes.subrange(at, bytes.len() as int);
        let after = bytes.subrange(at + 1, bytes.len() as int);
        assert(pop_first_scalar(suffix) =~= after);
        assert(valid_utf8(after));
        assert(valid_first_scalar(after));
        assert(after[0] == bytes[at + 1]);
        is_char_boundary_iff_not_is_continuation_byte(bytes, at + 1);
    }
}

/// An ASCII character at index `i` shows up as its own byte in the encoding,
/// right after the encoding of the characters before it.
pub proof fn lemma_ascii_char_byte(chars: Seq<char>, i: int)
    requires
        0 <= i < chars.len(),
        chars[i] as u32 <= 0x7f,
    ensures
        encode_utf8(chars.take(i)).len() < encode_utf8(chars).len(),
        encode_utf8(chars)[encode_utf8(chars.take(i)).len() as int] == chars[i] as u8,
{
    let before = chars.take(i);
    let after = chars.skip(i + 1);
    assert(chars =~= before + seq![chars[i]] + after);
    lemma_encode_concat(before + seq![chars[i]], after);
    lemma_encode_concat(before, seq![chars[i]]);
    lemma_encode_ascii(chars[i]);
}

/// If an ASCII byte occurs nowhere in the encoding, the character of that
/// value occurs nowhere in the string.
pub proof fn lemma_ascii_byte_absent(chars: Seq<char>, c: char)
    requires
        c as u32 <= 0x7f,
        forall|j: int| 0 <= j < encode_utf8(chars).len() ==> encode_utf8(chars)[j] != c as u8,
    ensures
        forall|i: int| 0 <= i < chars.len() ==> chars[i] != c,
{
    assert forall|i: int| 0 <= i < chars.len() implies chars[i] != c by {
        if chars[i] == c {
            lemma_ascii_char_byte(chars, i);
        }
    }
}

/// A valid encoding that is a prefix of another valid encoding ends where a
/// character of the longer one starts, or at its end.
pub proof fn lemma_valid_prefix_is_boundary(prefix: Seq<u8>, bytes: Seq<u8>)
    requires
        valid_utf8(prefix),
        valid_utf8(bytes),
        prefix.len() <= bytes.len(),
        bytes.subrange(0, prefix.len() as int) == prefix,
    ensures
        is_char_boundary(bytes, prefix.len() as int),
    decreases prefix.len(),
{
    if prefix.len() > 0 {
        assert(forall|j: int| 0 <= j < prefix.len() ==> prefix[j] == bytes.subrange(
            0,
            prefix.len() as int,
        )[j]);
        let width = length_of_first_scalar(prefix);
        assert(width == length_of_first_scalar(bytes));
        assert(pop_first_scalar(bytes).subrange(0, prefix.len() - width) =~= pop_first_scalar(
            prefix,
        ));
        lemma_valid_prefix_is_boundary(pop_first_scalar(prefix), pop_first_scalar(bytes));
    }
}

} // verus!
