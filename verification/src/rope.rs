//! The packed-text buffer, held behind trusted declarations: the rope's
//! contents are named as a sequence of characters, and each method the
//! coordinate mapper relies on carries the contract its source shows.

use vstd::prelude::*;

use crate::model::{byte_len_of, char_floor, is_boundary, line_count, line_start, nl_count};

verus! {

#[verifier::external_type_specification]
#[verifier::external_body]
pub struct ExRope(crop::Rope);

/// The sequence of Unicode scalar values the rope holds.
pub uninterp spec fn rope_text(r: crop::Rope) -> Seq<char>;

/// Relies on `crop::Rope::from(&str)`: builds a rope holding exactly the
/// given text.
#[verifier::external_body]
pub(crate) fn rope_from_str(s: &str) -> (r: crop::Rope)
    ensures
        rope_text(r) == s@,
{
    crop::Rope::from(s)
}

/// Relies on `crop::Rope::byte_len`: the length of the text in bytes.
#[verifier::external_body]
pub(crate) fn rope_byte_len(r: &crop::Rope) -> (n: usize)
    ensures
        n == byte_len_of(rope_text(*r)),
{
    r.byte_len()
}

/// Relies on `crop::Rope::line_len`: the number of lines, where a final
/// line break does not count as a separate empty line.
#[verifier::external_body]
pub(crate) fn rope_line_len(r: &crop::Rope) -> (n: usize)
    ensures
        n == line_count(rope_text(*r)),
{
    r.line_len()
}

/// Relies on `crop::Rope::byte_of_line`: the byte offset of the start of
/// the given line (the end of the text for the line one past the last
/// break). Panics only on a line offset above the line count, which the
/// precondition rules out.
#[verifier::external_body]
pub(crate) fn rope_byte_of_line(r: &crop::Rope, l: usize) -> (b: usize)
    requires
        l <= line_count(rope_text(*r)),
    ensures
        b == byte_len_of(rope_text(*r).take(line_start(rope_text(*r), l as int))),
{
    r.byte_of_line(l)
}

/// Relies on `crop::Rope::line_of_byte`: the number of line breaks before
/// the given character boundary. Panics on an offset above the byte length
/// or inside a character's encoding, both of which the preconditions rule
/// out.
#[verifier::external_body]
pub(crate) fn rope_line_of_byte(r: &crop::Rope, b: usize) -> (l: usize)
    requires
        b <= byte_len_of(rope_text(*r)),
        is_boundary(rope_text(*r), b as int),
    ensures
        l == nl_count(rope_text(*r).take(char_floor(rope_text(*r), b as int))),
{
    r.line_of_byte(b)
}

/// Relies on `crop::Rope::is_char_boundary`: whether the offset falls
/// between two character encodings (or at either end of the text). Panics
/// only on an offset above the byte length, which the precondition rules
/// out.
#[verifier::external_body]
pub(crate) fn rope_is_char_boundary(r: &crop::Rope, b: usize) -> (res: bool)
    requires
        b <= byte_len_of(rope_text(*r)),
    ensures
        res == is_boundary(rope_text(*r), b as int),
{
    r.is_char_boundary(b)
}

/// Relies on `crop::Rope::byte_slice` and the rope's character iterator:
/// the first character at or after the boundary `b`, if any.
#[verifier::external_body]
pub(crate) fn rope_char_after(r: &crop::Rope, b: usize) -> (c: Option<char>)
    requires
        b <= byte_len_of(rope_text(*r)),
        is_boundary(rope_text(*r), b as int),
    ensures
        match c {
            Some(ch) => char_floor(rope_text(*r), b as int) < rope_text(*r).len() && ch
                == rope_text(*r)[char_floor(rope_text(*r), b as int)],
            None => char_floor(rope_text(*r), b as int) == rope_text(*r).len(),
        },
{
    r.byte_slice(b..).chars().next()
}

/// Relies on `crop::Rope::byte_slice` and the rope's character iterator:
/// the last character before the boundary `b`, if any.
#[verifier::external_body]
pub(crate) fn rope_char_before(r: &crop::Rope, b: usize) -> (c: Option<char>)
    requires
        b <= byte_len_of(rope_text(*r)),
        is_boundary(rope_text(*r), b as int),
    ensures
        match c {
            Some(ch) => char_floor(rope_text(*r), b as int) > 0 && ch == rope_text(
                *r,
            )[char_floor(rope_text(*r), b as int) - 1],
            None => char_floor(rope_text(*r), b as int) == 0,
        },
{
    r.byte_slice(..b).chars().next_back()
}

/// Relies on `crop::Rope::insert`: splices the given text in at a character
/// boundary. Panics only on an offset that is out of range or not on a
/// boundary, which the preconditions rule out.
#[verifier::external_body]
pub(crate) fn rope_insert(r: &mut crop::Rope, b: usize, text: &str)
    requires
        b <= byte_len_of(rope_text(*old(r))),
        is_boundary(rope_text(*old(r)), b as int),
    ensures
        rope_text(*final(r)) == rope_text(*old(r)).take(char_floor(rope_text(*old(r)), b as int)) + text@
            + rope_text(*old(r)).skip(char_floor(rope_text(*old(r)), b as int)),
{
    r.insert(b, text);
}

/// Relies on `crop::Rope::delete`: removes the half-open byte range, whose
/// ends must be character boundaries in order. Panics only on inputs the
/// preconditions rule out.
#[verifier::external_body]
pub(crate) fn rope_delete(r: &mut crop::Rope, start: usize, end: usize)
    requires
        start <= end <= byte_len_of(rope_text(*old(r))),
        is_boundary(rope_text(*old(r)), start as int),
        is_boundary(rope_text(*old(r)), end as int),
    ensures
        rope_text(*final(r)) == rope_text(*old(r)).take(char_floor(rope_text(*old(r)), start as int))
            + rope_text(*old(r)).skip(char_floor(rope_text(*old(r)), end as int)),
{
    r.delete(start..end);
}

/// Relies on `crop::Rope::byte_slice` and the slice's `Display`: the text
/// between two boundaries as an owned string.
#[verifier::external_body]
pub(crate) fn rope_slice_to_string(r: &crop::Rope, start: usize, end: usize) -> (s: String)
    requires
        start <= end <= byte_len_of(rope_text(*r)),
        is_boundary(rope_text(*r), start as int),
        is_boundary(rope_text(*r), end as int),
    ensures
        s@ == rope_text(*r).subrange(
            char_floor(rope_text(*r), start as int),
            char_floor(rope_text(*r), end as int),
        ),
{
    r.byte_slice(start..end).to_string()
}

/// Relies on the rope's `Display`: the whole text as an owned string.
#[verifier::external_body]
pub(crate) fn rope_to_string(r: &crop::Rope) -> (s: String)
    ensures
        s@ == rope_text(*r),
{
    r.to_string()
}

} // verus!
