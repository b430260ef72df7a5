//! Splitting text into lines.
//!
//! A line ends at a line feed, or at a carriage return directly followed by a
//! line feed; neither belongs to the line. A carriage return anywhere else is
//! an ordinary character. The last line need not be terminated, and a
//! terminator at the very end of the text does not start another, empty line.

use vstd::prelude::*;
use vstd::string::*;
use vstd::utf8::*;
use crate::encoding::lemma_ascii_byte_absent;
use crate::encoding::lemma_ascii_byte_boundaries;
use crate::encoding::lemma_encode_ascii;
use crate::encoding::lemma_encode_concat;
use crate::encoding::lemma_encode_injective;
use crate::encoding::lemma_split_views;

verus! {

/// The byte that encodes a line feed.
pub const LINE_FEED: u8 = 0x0a;

/// The byte that encodes a carriage return.
pub const CARRIAGE_RETURN: u8 = 0x0d;

/// The index of the first line feed in `text`, or the length of `text` if it
/// holds none.
pub open spec fn first_line_feed(text: Seq<char>) -> nat
    decreases text.len(),
{
    if text.len() == 0 || text[0] == '\n' {
        0
    } else {
        1 + first_line_feed(text.drop_first())
    }
}

/// `line` without the carriage return at its end, if it has one there.
pub open spec fn without_trailing_cr(line: Seq<char>) -> Seq<char> {
    if line.len() > 0 && line.last() == '\r' {
        line.drop_last()
    } else {
        line
    }
}

/// The first line of `text`: what stands before the first line terminator, or
/// all of `text` if there is none.
pub open spec fn first_line(text: Seq<char>) -> Seq<char> {
    let end = first_line_feed(text) as int;
    if end < text.len() {
        without_trailing_cr(text.take(end))
    } else {
        text
    }
}

/// What follows the first line terminator of `text`; empty if there is none.
pub open spec fn after_first_line(text: Seq<char>) -> Seq<char> {
    let end = first_line_feed(text) as int;
    if end < text.len() {
        text.skip(end + 1)
    } else {
        Seq::empty()
    }
}

/// The lines of `text`, in order.
pub open spec fn lines_of(text: Seq<char>) -> Seq<Seq<char>>
    decreases text.len(),
{
    if text.len() == 0 {
        Seq::empty()
    } else {
        seq![first_line(text)] + lines_of(after_first_line(text))
    }
}

/// `first_line_feed` is the one index that has a line feed, or the end of the
/// text, at it and no line feed before it.
pub proof fn lemma_first_line_feed(text: Seq<char>, end: int)
    ensures
        first_line_feed(text) <= text.len(),
        forall|i: int| 0 <= i < first_line_feed(text) ==> text[i] != '\n',
        first_line_feed(text) < text.len() ==> text[first_line_feed(text) as int] == '\n',
        ({
            &&& 0 <= end <= text.len()
            &&& forall|i: int| 0 <= i < end ==> text[i] != '\n'
            &&& end < text.len() ==> text[end] == '\n'
        }) ==> first_line_feed(text) == end,
    decreases text.len(),
{
    if text.len() == 0 || text[0] == '\n' {
    } else {
        let rest = text.drop_first();
        lemma_first_line_feed(rest, end - 1);
        assert forall|i: int| 0 <= i < first_line_feed(text) implies text[i] != '\n' by {
            if i > 0 {
                assert(text[i] == rest[i - 1]);
            }
        }
        if 0 <= end <= text.len() && (forall|i: int| 0 <= i < end ==> text[i] != '\n') && (end
            < text.len() ==> text[end] == '\n') {
            assert(end > 0) by {
                if end == 0 {
                    assert(text[end] == '\n');
                }
            }
            assert forall|i: int| 0 <= i < end - 1 implies rest[i] != '\n' by {
                assert(rest[i] == text[i + 1]);
            }
        }
    }
}

/// The index of the first `wanted` byte, or the length if there is none.
fn find_byte(bytes: &[u8], wanted: u8) -> (at: usize)
    ensures
        at <= bytes@.len(),
        forall|j: int| 0 <= j < at ==> bytes@[j] != wanted,
        at < bytes@.len() ==> bytes@[at as int] == wanted,
{
    let end: usize = bytes.len();
    let mut at: usize = 0;
    while at < end
        invariant
            at <= end == bytes@.len(),
            forall|j: int| 0 <= j < at ==> bytes@[j] != wanted,
        decreases end - at,
    {
        if bytes[at] == wanted {
            return at;
        }
        at += 1;
    }
    at
}

/// Cuts `text` in two at byte `at`, which must be where a character starts or
/// the end of the text.
fn split_str<'a>(text: &'a str, at: usize) -> (parts: (&'a str, &'a str))
    requires
        at <= text.spec_bytes().len(),
        is_char_boundary(text.spec_bytes(), at as int),
    ensures
        text@ == parts.0@ + parts.1@,
        parts.0.spec_bytes() == text.spec_bytes().subrange(0, at as int),
        parts.1.spec_bytes() == text.spec_bytes().subrange(
            at as int,
            text.spec_bytes().len() as int,
        ),
{
    let parts = text.split_at(at);
    proof {
        lemma_split_views(text@, parts.0@, parts.1@, at as int);
    }
    parts
}

/// Removes one carriage return from the end of `line`, if it ends in one.
fn strip_cr<'a>(line: &'a str) -> (stripped: &'a str)
    ensures
        stripped@ == without_trailing_cr(line@),
{
    let bytes = line.as_bytes();
    let len: usize = bytes.len();
    if len > 0 && bytes[len - 1] == CARRIAGE_RETURN {
        proof {
            encode_utf8_valid_utf8(line@);
            lemma_ascii_byte_boundaries(bytes@, len - 1);
        }
        let (body, cr) = split_str(line, len - 1);
        proof {
            lemma_encode_ascii('\r');
            assert(cr.spec_bytes() =~= seq![CARRIAGE_RETURN]);
            lemma_encode_injective(cr@, seq!['\r']);
            assert(line@.drop_last() =~= body@);
        }
        body
    } else {
        proof {
            if line@.len() > 0 && line@.last() == '\r' {
                let body = line@.drop_last();
                assert(line@ =~= body + seq!['\r']);
                lemma_encode_concat(body, seq!['\r']);
                lemma_encode_ascii('\r');
                assert(bytes@[len - 1] == seq![CARRIAGE_RETURN][0]);
            }
        }
        line
    }
}

/// Splits `text` into its first line and what follows that line's terminator.
///
/// Text without a line terminator is its own first line, and nothing follows
/// it. What follows is shorter than `text` unless `text` is empty.
pub fn split_first_line<'a>(text: &'a str) -> (parts: (&'a str, &'a str))
    ensures
        parts.0@ == first_line(text@),
        parts.1@ == after_first_line(text@),
        text@.len() > 0 ==> parts.1@.len() < text@.len(),
{
    let bytes = text.as_bytes();
    let end: usize = find_byte(bytes, LINE_FEED);
    proof {
        encode_utf8_valid_utf8(text@);
    }
    if end < bytes.len() {
        proof {
            lemma_ascii_byte_boundaries(bytes@, end as int);
        }
        let (head, tail) = split_str(text, end);
        proof {
            encode_utf8_valid_utf8(tail@);
            lemma_ascii_byte_boundaries(tail.spec_bytes(), 0);
        }
        let (feed, rest) = split_str(tail, 1);
        proof {
            lemma_encode_ascii('\n');
            assert(feed.spec_bytes() =~= seq![LINE_FEED]);
            lemma_encode_injective(feed@, seq!['\n']);
            lemma_ascii_byte_absent(head@, '\n');
            lemma_first_line_feed(text@, head@.len() as int);
            assert(text@.take(head@.len() as int) =~= head@);
            assert(text@.skip(head@.len() as int + 1) =~= rest@);
        }
        (strip_cr(head), rest)
    } else {
        proof {
            lemma_ascii_byte_absent(text@, '\n');
            lemma_first_line_feed(text@, text@.len() as int);
            is_char_boundary_start_end_of_seq(bytes@);
        }
        let (_, rest) = split_str(text, end);
        proof {
            assert(rest.spec_bytes() =~= encode_utf8(Seq::<char>::empty()));
            lemma_encode_injective(rest@, Seq::<char>::empty());
        }
        (text, rest)
    }
}

} // verus!
