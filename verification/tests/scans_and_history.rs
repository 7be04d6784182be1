//! Word/line boundary scanning and the undo/redo history.

use text_edit::editing::{EditResult, Pos};
use text_edit::text_edit::{LeftRight, MoveDir, TextEditable, TextOp, Unit};

fn pos(line: usize, column: usize) -> Pos {
    Pos { line, column }
}

fn word_right() -> TextOp {
    TextOp::Move(MoveDir::Horizontal { unit: Unit::Word, dir: LeftRight::Right })
}

fn word_left() -> TextOp {
    TextOp::Move(MoveDir::Horizontal { unit: Unit::Word, dir: LeftRight::Left })
}

#[test]
fn word_scan_example() {
    // The scan stops at the space after "foo".
    let mut field = TextEditable::from_text("foo bar");
    let (res, cur) = field.handle_edit_event(pos(0, 0), word_right());
    assert_eq!(res, EditResult::Noop);
    assert_eq!(cur, Some(pos(0, 3)));
}

#[test]
fn word_scan_skips_leading_whitespace() {
    // Phase one consumes the whitespace run, phase two the word after it.
    let mut field = TextEditable::from_text("foo   bar");
    let (_, cur) = field.handle_edit_event(pos(0, 3), word_right());
    assert_eq!(cur, Some(pos(0, 9)));
}

#[test]
fn word_scan_punctuation_run() {
    // Punctuation forms its own class: the scan from inside "ab" stops
    // before the space, and from there consumes only the ",," run.
    let mut field = TextEditable::from_text("ab,, cd");
    let (_, cur) = field.handle_edit_event(pos(0, 0), word_right());
    assert_eq!(cur, Some(pos(0, 2)));
    let (_, cur2) = field.handle_edit_event(pos(0, 2), word_right());
    assert_eq!(cur2, Some(pos(0, 4)));
}

#[test]
fn word_scan_newline_run() {
    // A leading newline run is consumed whole, then the following word.
    let mut field = TextEditable::from_text("ab\n\n\ncd");
    let (_, cur) = field.handle_edit_event(pos(0, 2), word_right());
    assert_eq!(cur, Some(pos(3, 2)));
}

#[test]
fn word_scan_left() {
    let mut field = TextEditable::from_text("foo bar");
    let (_, cur) = field.handle_edit_event(pos(0, 7), word_left());
    assert_eq!(cur, Some(pos(0, 4)));
    let (_, cur2) = field.handle_edit_event(pos(0, 4), word_left());
    assert_eq!(cur2, Some(pos(0, 0)));
}

#[test]
fn line_scan_broad_newline_class() {
    // The scanner's newline class is broader than the buffer's '\n' line
    // break: a vertical tab stops a line scan though it opens no line.
    let mut field = TextEditable::from_text("a\u{000B}b");
    let (_, cur) = field.handle_edit_event(
        pos(0, 0),
        TextOp::Move(MoveDir::Horizontal { unit: Unit::Line, dir: LeftRight::Right }),
    );
    assert_eq!(cur, Some(pos(0, 1)));
}

#[test]
fn word_scan_unicode_whitespace_class() {
    // A no-break space is whitespace but not horizontal whitespace: phase
    // one consumes nothing, phase two consumes the whitespace-class run.
    let mut field = TextEditable::from_text("a\u{00A0}b");
    let (_, cur) = field.handle_edit_event(pos(0, 1), word_right());
    assert_eq!(cur, Some(pos(0, 2)));
}

#[test]
fn char_move_clamps_inside_crlf() {
    // Stepping right onto the '\r' of a "\r\n" break lands between the two
    // break characters; the owning-line mapping clamps to the content end.
    let mut field = TextEditable::from_text("ab\r\ncd");
    let right = TextOp::Move(MoveDir::Horizontal { unit: Unit::Char, dir: LeftRight::Right });
    let (_, cur) = field.handle_edit_event(pos(0, 2), right);
    assert_eq!(cur, Some(pos(0, 2)));
}

#[test]
fn char_move_symmetry_interior() {
    let mut field = TextEditable::from_text("aé\nb");
    let right = TextOp::Move(MoveDir::Horizontal { unit: Unit::Char, dir: LeftRight::Right });
    let left = TextOp::Move(MoveDir::Horizontal { unit: Unit::Char, dir: LeftRight::Left });
    let (_, there) = field.handle_edit_event(pos(0, 1), right);
    assert_eq!(there, Some(pos(0, 2)));
    let (_, back) = field.handle_edit_event(there.unwrap(), left);
    assert_eq!(back, Some(pos(0, 1)));
}

#[test]
fn line_move_symmetry_from_line_start() {
    let mut field = TextEditable::from_text("abc\ndef");
    let right = TextOp::Move(MoveDir::Horizontal { unit: Unit::Line, dir: LeftRight::Right });
    let left = TextOp::Move(MoveDir::Horizontal { unit: Unit::Line, dir: LeftRight::Left });
    let (_, cur) = field.handle_edit_event(pos(1, 0), right);
    assert_eq!(cur, Some(pos(1, 3)));
    let (_, cur2) = field.handle_edit_event(pos(1, 3), left);
    assert_eq!(cur2, Some(pos(1, 0)));
}

#[test]
fn insert_then_undo_restores_text_and_cursor() {
    let mut field = TextEditable::from_text("hello world");
    let (res, cur) = field.handle_edit_event(pos(0, 5), TextOp::InsertText(String::from(", hi")));
    assert_eq!(res, EditResult::Dirty);
    assert_eq!(cur, Some(pos(0, 9)));
    assert_eq!(field.to_text(), "hello, hi world");
    let (res2, cur2) = field.handle_edit_event(cur.unwrap(), TextOp::Undo);
    assert_eq!(res2, EditResult::Dirty);
    assert_eq!(cur2, Some(pos(0, 5)));
    assert_eq!(field.to_text(), "hello world");
}

#[test]
fn multiline_insert_then_undo() {
    let mut field = TextEditable::from_text("ab");
    let (_, cur) = field.handle_edit_event(pos(0, 1), TextOp::InsertText(String::from("x\nyz")));
    assert_eq!(cur, Some(pos(1, 2)));
    assert_eq!(field.to_text(), "ax\nyzb");
    let (_, cur2) = field.handle_edit_event(cur.unwrap(), TextOp::Undo);
    assert_eq!(cur2, Some(pos(0, 1)));
    assert_eq!(field.to_text(), "ab");
}

#[test]
fn delete_left_then_undo_restores_cursor() {
    let mut field = TextEditable::from_text("abc def");
    let (res, cur) = field.handle_edit_event(
        pos(0, 7),
        TextOp::Delete { unit: Unit::Word, dir: LeftRight::Left },
    );
    assert_eq!(res, EditResult::Dirty);
    assert_eq!(cur, Some(pos(0, 4)));
    assert_eq!(field.to_text(), "abc ");
    let (res2, cur2) = field.handle_edit_event(cur.unwrap(), TextOp::Undo);
    assert_eq!(res2, EditResult::Dirty);
    assert_eq!(cur2, Some(pos(0, 7)));
    assert_eq!(field.to_text(), "abc def");
}

#[test]
fn redo_replays_undone_edit() {
    let mut field = TextEditable::from_text("ab");
    field.handle_edit_event(pos(0, 2), TextOp::InsertText(String::from("c")));
    assert_eq!(field.to_text(), "abc");
    field.handle_edit_event(pos(0, 3), TextOp::Undo);
    assert_eq!(field.to_text(), "ab");
    let (res, cur) = field.handle_edit_event(pos(0, 2), TextOp::Redo);
    assert_eq!(res, EditResult::Dirty);
    assert_eq!(cur, Some(pos(0, 3)));
    assert_eq!(field.to_text(), "abc");
}

#[test]
fn fresh_edit_discards_redo_branch() {
    // Undo, a new edit, then redo: the discarded branch never replays.
    let mut field = TextEditable::from_text("");
    field.handle_edit_event(pos(0, 0), TextOp::InsertText(String::from("one")));
    field.handle_edit_event(pos(0, 3), TextOp::Undo);
    field.handle_edit_event(pos(0, 0), TextOp::InsertText(String::from("two")));
    assert_eq!(field.to_text(), "two");
    let (res, cur) = field.handle_edit_event(pos(0, 3), TextOp::Redo);
    assert_eq!(res, EditResult::Noop);
    assert_eq!(cur, None);
    assert_eq!(field.to_text(), "two");
}

#[test]
fn failed_replay_is_atomic() {
    // Inserting at the simulated slot of a text whose closing character is
    // a carriage return leaves a log entry whose inverse addresses a slot
    // that no longer exists. Replaying it aborts as an atomic no-op: the
    // text and the whole log state stay put, so the attempt can repeat.
    let mut field = TextEditable::from_text("ab\r");
    let (res, cur) = field.handle_edit_event(pos(1, 0), TextOp::InsertText(String::from("x")));
    assert_eq!(res, EditResult::Dirty);
    assert_eq!(cur, Some(pos(1, 1)));
    assert_eq!(field.to_text(), "ab\rx");
    let (res2, cur2) = field.handle_edit_event(pos(1, 1), TextOp::Undo);
    assert_eq!(res2, EditResult::Noop);
    assert_eq!(cur2, None);
    assert_eq!(field.to_text(), "ab\rx");
    // The log cursor was not moved by the failed replay: a redo still has
    // nothing ahead of it, and the undo can be attempted again.
    let (res3, cur3) = field.handle_edit_event(pos(1, 1), TextOp::Redo);
    assert_eq!(res3, EditResult::Noop);
    assert_eq!(cur3, None);
    let (res4, _) = field.handle_edit_event(pos(1, 1), TextOp::Undo);
    assert_eq!(res4, EditResult::Noop);
    assert_eq!(field.to_text(), "ab\rx");
}

#[test]
fn undo_on_fresh_field_is_noop() {
    let mut field = TextEditable::from_text("abc");
    let (res, cur) = field.handle_edit_event(pos(0, 1), TextOp::Undo);
    assert_eq!(res, EditResult::Noop);
    assert_eq!(cur, None);
    assert_eq!(field.to_text(), "abc");
}

#[test]
fn undo_chain_walks_back_through_history() {
    let mut field = TextEditable::from_text("");
    field.handle_edit_event(pos(0, 0), TextOp::InsertText(String::from("a")));
    field.handle_edit_event(pos(0, 1), TextOp::InsertText(String::from("b")));
    field.handle_edit_event(pos(0, 2), TextOp::InsertText(String::from("c")));
    assert_eq!(field.to_text(), "abc");
    field.handle_edit_event(pos(0, 3), TextOp::Undo);
    assert_eq!(field.to_text(), "ab");
    field.handle_edit_event(pos(0, 2), TextOp::Undo);
    assert_eq!(field.to_text(), "a");
    field.handle_edit_event(pos(0, 1), TextOp::Undo);
    assert_eq!(field.to_text(), "");
    let (res, _) = field.handle_edit_event(pos(0, 0), TextOp::Undo);
    assert_eq!(res, EditResult::Noop);
}
