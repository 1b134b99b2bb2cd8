//! Pieces of a string between byte offsets, and their model.
//!
//! A string is modelled by its characters. Offsets into it count the bytes
//! of its UTF-8 encoding, and a piece between two offsets is modelled by
//! the characters that those bytes decode to.

use vstd::prelude::*;
use vstd::string::{StrSliceExecFns, StringSliceAdditionalSpecFns};
use vstd::utf8::*;

verus! {

/// The bytes that encode `content`.
pub open spec fn bytes_of(content: Seq<char>) -> Seq<u8> {
    encode_utf8(content)
}

/// Whether `at` is an offset into the bytes of `content` at which one
/// character ends and the next begins; both ends of the text count.
pub open spec fn is_boundary(content: Seq<char>, at: int) -> bool {
    0 <= at <= bytes_of(content).len() && is_char_boundary(bytes_of(content), at)
}

/// Whether `from..to` is a range of bytes of `content` that can be cut out
/// as text.
pub open spec fn is_range(content: Seq<char>, from: int, to: int) -> bool {
    from <= to && is_boundary(content, from) && is_boundary(content, to)
}

/// The characters of `content` that its bytes `from..to` encode.
pub open spec fn text_between(content: Seq<char>, from: int, to: int) -> Seq<char> {
    decode_utf8(bytes_of(content).subrange(from, to))
}

/// A boundary of a text is also a boundary of each prefix that reaches it.
proof fn lemma_boundary_in_prefix(bytes: Seq<u8>, from: int, to: int)
    requires
        valid_utf8(bytes),
        0 <= from <= to <= bytes.len(),
        is_char_boundary(bytes, from),
        is_char_boundary(bytes, to),
    ensures
        valid_utf8(bytes.subrange(0, to)),
        is_char_boundary(bytes.subrange(0, to), from),
{
    let head = bytes.subrange(0, to);
    valid_utf8_split(bytes, to);
    if from == to {
        is_char_boundary_start_end_of_seq(head);
    } else {
        is_char_boundary_iff_not_is_continuation_byte(bytes, from);
        is_char_boundary_iff_not_is_continuation_byte(head, from);
    }
}

/// The text between the two ends of `content` is `content`.
pub proof fn lemma_whole_text(content: Seq<char>)
    ensures
        is_range(content, 0, bytes_of(content).len() as int),
        text_between(content, 0, bytes_of(content).len() as int) == content,
{
    let bytes = bytes_of(content);
    encode_utf8_valid_utf8(content);
    is_char_boundary_start_end_of_seq(bytes);
    assert(bytes.subrange(0, bytes.len() as int) =~= bytes);
    encode_utf8_decode_utf8(content);
}

/// Two pieces that meet at a boundary make up the piece that spans both.
pub proof fn lemma_text_joins(content: Seq<char>, from: int, mid: int, to: int)
    requires
        is_range(content, from, mid),
        is_range(content, mid, to),
    ensures
        text_between(content, from, mid) + text_between(content, mid, to) == text_between(
            content,
            from,
            to,
        ),
{
    let bytes = bytes_of(content);
    encode_utf8_valid_utf8(content);
    lemma_boundary_in_prefix(bytes, from, to);
    let head = bytes.subrange(0, to);
    valid_utf8_split(head, from);
    let span = head.subrange(from, to);
    assert(span =~= bytes.subrange(from, to));
    if mid == to {
        is_char_boundary_start_end_of_seq(span);
    } else if mid == from {
    } else {
        is_char_boundary_iff_not_is_continuation_byte(bytes, mid);
        is_char_boundary_iff_not_is_continuation_byte(span, mid - from);
    }
    decode_utf8_split(span, mid - from);
    assert(span.subrange(0, mid - from) =~= bytes.subrange(from, mid));
    assert(span.subrange(mid - from, span.len() as int) =~= bytes.subrange(mid, to));
}

/// The piece of `content` between the byte offsets `from` and `to`.
pub fn slice<'a>(content: &'a str, from: usize, to: usize) -> (piece: &'a str)
    requires
        is_range(content@, from as int, to as int),
    ensures
        piece@ == text_between(content@, from as int, to as int),
{
    proof {
        let bytes = bytes_of(content@);
        encode_utf8_valid_utf8(content@);
        lemma_boundary_in_prefix(bytes, from as int, to as int);
    }
    let (head, _) = content.split_at(to);
    let (_, piece) = head.split_at(from);
    proof {
        let bytes = bytes_of(content@);
        assert(head.spec_bytes().subrange(from as int, head.spec_bytes().len() as int)
            =~= bytes.subrange(from as int, to as int));
        encode_utf8_decode_utf8(piece@);
    }
    piece
}

/// Whether two strings hold the same text.
pub fn same_text(a: &str, b: &str) -> (same: bool)
    ensures
        same == (a@ == b@),
{
    let left = a.as_bytes();
    let right = b.as_bytes();
    proof {
        encode_utf8_decode_utf8(a@);
        encode_utf8_decode_utf8(b@);
    }
    if left.len() != right.len() {
        return false;
    }
    let mut at: usize = 0;
    while at < left.len()
        invariant
            left.len() == right.len(),
            at <= left.len(),
            forall|i: int| 0 <= i < at ==> left@[i] == right@[i],
            left@ != right@ ==> a@ != b@,
        decreases left.len() - at,
    {
        if left[at] != right[at] {
            return false;
        }
        at += 1;
    }
    proof {
        assert(left@ =~= right@);
    }
    true
}

/// Whether the last character of `s` is `c`.
pub fn ends_with_char(s: &str, c: char) -> (ends: bool)
    ensures
        ends == (s@.len() > 0 && s@.last() == c),
{
    let length = s.unicode_len();
    length > 0 && s.get_char(length - 1) == c
}

/// The lowercase form of `s`, as `str::to_lowercase` of the standard library
/// gives it.
pub uninterp spec fn lowercase_of(s: Seq<char>) -> Seq<char>;

/// Calls `str::to_lowercase`, which maps a string to its lowercase form by
/// the rules of Unicode, whatever the locale. Its result is known by name
/// only.
#[verifier::external_body]
pub(crate) fn to_lowercase(s: &str) -> (lower: String)
    ensures
        lower@ == lowercase_of(s@),
{
    s.to_lowercase()
}

} // verus!
