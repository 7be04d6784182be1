//! Character classification used by the boundary scanner, and the UTF-8
//! width of a character.

use vstd::prelude::*;

use crate::model::{class_of, is_alnum_char, is_inline_ws_char, is_newline_char,
    is_unicode_ws_char, run_pred, CharClass, RunPred, utf8_len};

verus! {

/// Relies on `char::is_alphanumeric`: whether the character is in one of
/// the Unicode Alphabetic or Number classes; a function of the character
/// alone, named by `is_alnum_char`.
#[verifier::external_body]
pub(crate) fn char_is_alnum(c: char) -> (r: bool)
    ensures
        r == is_alnum_char(c),
{
    c.is_alphanumeric()
}

/// Relies on `char::is_whitespace`: the Unicode `White_Space` property; a
/// function of the character alone, named by `is_unicode_ws_char`.
#[verifier::external_body]
pub(crate) fn char_is_unicode_ws(c: char) -> (r: bool)
    ensures
        r == is_unicode_ws_char(c),
{
    c.is_whitespace()
}

/// Relies on chumsky's `text::Char::is_newline` for `char`: membership in
/// its fixed set of seven line-ending characters.
#[verifier::external_body]
pub(crate) fn char_is_newline(c: char) -> (r: bool)
    ensures
        r == is_newline_char(c),
{
    chumsky::text::Char::is_newline(&c)
}

/// Relies on chumsky's `text::Char::is_inline_whitespace` for `char`: a
/// space or a tab.
#[verifier::external_body]
pub(crate) fn char_is_inline_ws(c: char) -> (r: bool)
    ensures
        r == is_inline_ws_char(c),
{
    chumsky::text::Char::is_inline_whitespace(&c)
}

/// The word scanner's class of a character, tested in the scanner's order.
pub fn classify_char(c: char) -> (r: CharClass)
    ensures
        r == class_of(c),
{
    if char_is_alnum(c) {
        CharClass::Alphanumeric
    } else if char_is_newline(c) {
        CharClass::Newline
    } else if char_is_unicode_ws(c) {
        CharClass::Whitespace
    } else {
        CharClass::Other
    }
}

/// Evaluates a run predicate on a character.
pub fn run_pred_eval(p: RunPred, c: char) -> (r: bool)
    ensures
        r == run_pred(p, c),
{
    match p {
        RunPred::Newline => char_is_newline(c),
        RunPred::InlineWs => char_is_inline_ws(c),
        RunPred::NotNewline => !char_is_newline(c),
        RunPred::Class(cl) => {
            let c2 = classify_char(c);
            c2 == cl
        },
    }
}

/// Number of bytes of the UTF-8 encoding of `c`, from its scalar value.
pub fn char_len_utf8(c: char) -> (r: usize)
    ensures
        r == utf8_len(c),
{
    let u = c as u32;
    if u < 0x80 {
        1
    } else if u < 0x800 {
        2
    } else if u < 0x10000 {
        3
    } else {
        4
    }
}

} // verus!
