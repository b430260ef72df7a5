//! Substring search: whether one string occurs inside another as a contiguous
//! run of characters.
//!
//! The search itself runs over bytes. That it answers the question about
//! characters rests on UTF-8 being self-synchronising: the encoding of the
//! needle can only be found where a character of the haystack starts, and it
//! ends where one ends.

use vstd::prelude::*;
use vstd::string::*;
use vstd::utf8::*;
use crate::encoding::lemma_encode_concat;
use crate::encoding::lemma_encode_injective;
use crate::encoding::lemma_encode_len;
use crate::encoding::lemma_valid_prefix_is_boundary;

verus! {

/// `needle` lies in `hay` starting at index `at`.
pub open spec fn occurs_at<T>(needle: Seq<T>, hay: Seq<T>, at: int) -> bool {
    &&& 0 <= at
    &&& at + needle.len() <= hay.len()
    &&& hay.subrange(at, at + needle.len()) =~= needle
}

/// `needle` lies somewhere in `hay`. The empty sequence lies in every
/// sequence.
pub open spec fn occurs_in<T>(needle: Seq<T>, hay: Seq<T>) -> bool {
    exists|at: int| occurs_at(needle, hay, at)
}

/// Where characters occur, their encoding occurs.
proof fn lemma_occurrence_encodes(needle: Seq<char>, hay: Seq<char>, at: int)
    requires
        occurs_at(needle, hay, at),
    ensures
        occurs_at(encode_utf8(needle), encode_utf8(hay), encode_utf8(hay.take(at)).len() as int),
{
    let before = hay.take(at);
    let after = hay.skip(at + needle.len());
    assert(hay =~= before + needle + after);
    lemma_encode_concat(before + needle, after);
    lemma_encode_concat(before, needle);
    let start = encode_utf8(before).len() as int;
    assert(encode_utf8(hay).subrange(start, start + encode_utf8(needle).len()) =~= encode_utf8(
        needle,
    ));
}

/// Where the encoding of `needle` occurs in the encoding of `hay`, the
/// characters of `needle` occur in `hay`.
proof fn lemma_occurrence_decodes(needle: Seq<char>, hay: Seq<char>, at: int)
    requires
        occurs_at(encode_utf8(needle), encode_utf8(hay), at),
    ensures
        occurs_in(needle, hay),
{
    let bytes = encode_utf8(hay);
    let pattern = encode_utf8(needle);
    encode_utf8_valid_utf8(hay);
    encode_utf8_valid_utf8(needle);
    if needle.len() == 0 {
        assert(occurs_at(needle, hay, 0));
    } else {
        lemma_encode_len(needle);
        // The needle's first byte starts a character, so the match starts at one.
        is_char_boundary_start_end_of_seq(pattern);
        is_char_boundary_iff_not_is_continuation_byte(pattern, 0);
        assert(bytes[at] == bytes.subrange(at, at + pattern.len())[0]);
        is_char_boundary_iff_not_is_continuation_byte(bytes, at);
        valid_utf8_split(bytes, at);
        // The needle is a valid prefix of what follows, so the match ends at one.
        let head = bytes.subrange(0, at);
        let suffix = bytes.subrange(at, bytes.len() as int);
        assert(suffix.subrange(0, pattern.len() as int) =~= pattern);
        lemma_valid_prefix_is_boundary(pattern, suffix);
        valid_utf8_split(suffix, pattern.len() as int);
        let tail = suffix.subrange(pattern.len() as int, suffix.len() as int);
        let before = decode_utf8(head);
        let after = decode_utf8(tail);
        decode_utf8_encode_utf8(head);
        decode_utf8_encode_utf8(tail);
        lemma_encode_concat(before + needle, after);
        lemma_encode_concat(before, needle);
        assert(head + pattern + tail =~= bytes);
        lemma_encode_injective(before + needle + after, hay);
        assert(occurs_at(needle, hay, before.len() as int));
    }
}

/// A string occurs in another exactly when its bytes occur in the other's
/// bytes.
pub proof fn lemma_occurs_in_encoding(needle: Seq<char>, hay: Seq<char>)
    ensures
        occurs_in(needle, hay) <==> occurs_in(encode_utf8(needle), encode_utf8(hay)),
{
    if occurs_in(needle, hay) {
        let at = choose|at: int| occurs_at(needle, hay, at);
        lemma_occurrence_encodes(needle, hay, at);
    }
    if occurs_in(encode_utf8(needle), encode_utf8(hay)) {
        let at = choose|at: int| occurs_at(encode_utf8(needle), encode_utf8(hay), at);
        lemma_occurrence_decodes(needle, hay, at);
    }
}

/// Whether `needle` lies in `hay` starting at byte `at`.
fn matches_at(hay: &[u8], needle: &[u8], at: usize) -> (hit: bool)
    requires
        at + needle@.len() <= hay@.len(),
    ensures
        hit == occurs_at(needle@, hay@, at as int),
{
    let width: usize = needle.len();
    let room: usize = hay.len();
    let mut i: usize = 0;
    while i < width
        invariant
            i <= width == needle@.len(),
            at + width <= room == hay@.len(),
            forall|j: int| 0 <= j < i ==> hay@[at + j] == needle@[j],
        decreases width - i,
    {
        if hay[at + i] != needle[i] {
            assert(hay@.subrange(at as int, at + needle@.len())[i as int] != needle@[i as int]);
            return false;
        }
        i += 1;
    }
    assert(hay@.subrange(at as int, at + needle@.len()) =~= needle@);
    true
}

/// Whether the bytes of `needle` lie somewhere in `hay`.
pub fn bytes_contain(hay: &[u8], needle: &[u8]) -> (found: bool)
    ensures
        found == occurs_in(needle@, hay@),
{
    if needle.len() > hay.len() {
        return false;
    }
    if needle.len() == 0 {
        assert(occurs_at(needle@, hay@, 0));
        return true;
    }
    let last: usize = hay.len() - needle.len();
    let mut at: usize = 0;
    while at <= last
        invariant
            at <= last + 1,
            last == hay@.len() - needle@.len(),
            last < usize::MAX,
            forall|k: int| 0 <= k < at ==> !occurs_at(needle@, hay@, k),
        decreases last + 1 - at,
    {
        if matches_at(hay, needle, at) {
            return true;
        }
        at += 1;
    }
    false
}

/// Whether `needle` occurs in `hay` as a contiguous run of characters. The
/// comparison is exact: no case folding, no normalisation.
pub fn contains(hay: &str, needle: &str) -> (found: bool)
    ensures
        found == occurs_in(needle@, hay@),
{
    proof {
        lemma_occurs_in_encoding(needle@, hay@);
    }
    bytes_contain(hay.as_bytes(), needle.as_bytes())
}

} // verus!
