//! Coordinate mapping and primitive editing behaviour.

use text_edit::editing::{EditResult, Pos};
use text_edit::span_edit::{EditErr, EditOp, SpanEditable};
use text_edit::text_edit::{LeftRight, MoveDir, TextEditable, TextOp, Unit};

fn pos(line: usize, column: usize) -> Pos {
    Pos { line, column }
}

#[test]
fn get_byte_basic() {
    let span = SpanEditable::from_text("abc\ndef");
    assert_eq!(span.get_byte(pos(0, 0)), Ok(0));
    assert_eq!(span.get_byte(pos(0, 3)), Ok(3));
    assert_eq!(span.get_byte(pos(1, 0)), Ok(4));
    assert_eq!(span.get_byte(pos(1, 3)), Ok(7));
    assert_eq!(span.get_byte(pos(0, 4)), Err(EditErr::OutOfBounds));
    assert_eq!(span.get_byte(pos(2, 0)), Err(EditErr::OutOfBounds));
}

#[test]
fn get_byte_multibyte() {
    // 'é' is two bytes, '日' three, '🎉' four.
    let span = SpanEditable::from_text("aé日🎉");
    assert_eq!(span.get_byte(pos(0, 1)), Ok(1));
    assert_eq!(span.get_byte(pos(0, 2)), Ok(3));
    assert_eq!(span.get_byte(pos(0, 3)), Ok(6));
    assert_eq!(span.get_byte(pos(0, 4)), Ok(10));
    assert_eq!(span.get_byte(pos(0, 5)), Err(EditErr::OutOfBounds));
}

#[test]
fn simulated_final_newline_position() {
    // One line past the last real line is valid only over a final break.
    let span = SpanEditable::from_text("abc\n");
    assert!(span.is_simulated_final_newline(pos(1, 0)));
    assert_eq!(span.get_byte(pos(1, 0)), Ok(4));
    assert_eq!(span.get_line_char_len(1), Ok(0));

    let flat = SpanEditable::from_text("abc");
    assert!(!flat.is_simulated_final_newline(pos(1, 0)));
    assert_eq!(flat.get_byte(pos(1, 0)), Err(EditErr::OutOfBounds));
    assert_eq!(flat.get_line_char_len(1), Err(EditErr::OutOfBounds));

    let empty = SpanEditable::from_text("");
    assert!(empty.is_simulated_final_newline(pos(0, 0)));
    assert_eq!(empty.get_byte(pos(0, 0)), Ok(0));
    assert_eq!(empty.get_line_char_len(0), Ok(0));
}

#[test]
fn simulated_final_newline_insert() {
    // Inserting at the simulated slot appends after the final break.
    let mut field = TextEditable::from_text("abc\n");
    let (res, cur) = field.handle_edit_event(pos(1, 0), TextOp::InsertText(String::from("x")));
    assert_eq!(res, EditResult::Dirty);
    assert_eq!(cur, Some(pos(1, 1)));
    assert_eq!(field.to_text(), "abc\nx");
}

#[test]
fn pos_from_byte_round_trip() {
    let span = SpanEditable::from_text("ab\ncd\n");
    assert_eq!(span.pos_from_byte(0), Ok(pos(0, 0)));
    assert_eq!(span.pos_from_byte(2), Ok(pos(0, 2)));
    assert_eq!(span.pos_from_byte(3), Ok(pos(1, 0)));
    assert_eq!(span.pos_from_byte(6), Ok(pos(2, 0)));
    assert_eq!(span.pos_from_byte(7), Err(EditErr::OutOfBounds));

    let flat = SpanEditable::from_text("abc");
    assert_eq!(flat.pos_from_byte(3), Ok(pos(0, 3)));
}

#[test]
fn pos_from_byte_inside_a_character() {
    // An offset inside a character's encoding owns only the characters
    // wholly before it: it is answered, not panicked on.
    let accent = SpanEditable::from_text("é");
    assert_eq!(accent.pos_from_byte(1), Ok(pos(0, 0)));
    let mixed = SpanEditable::from_text("a\né日");
    // Inside the 'é' on line 1.
    assert_eq!(mixed.pos_from_byte(3), Ok(pos(1, 0)));
    // Inside the '日' (three bytes starting at offset 4).
    assert_eq!(mixed.pos_from_byte(5), Ok(pos(1, 1)));
    assert_eq!(mixed.pos_from_byte(6), Ok(pos(1, 1)));
}

#[test]
fn line_char_len_crlf() {
    // A "\r\n" break belongs to the terminator, not the content.
    let span = SpanEditable::from_text("ab\r\ncd");
    assert_eq!(span.get_line_char_len(0), Ok(2));
    assert_eq!(span.get_line_char_len(1), Ok(2));
    // A lone '\r' is content.
    let cr = SpanEditable::from_text("ab\rcd");
    assert_eq!(cr.get_line_char_len(0), Ok(5));
}

#[test]
fn apply_edit_records_inverse() {
    let mut span = SpanEditable::from_text("hello");
    let entry = span
        .apply_edit(EditOp::Insert { pos: pos(0, 5), text: String::from(" world") })
        .unwrap();
    assert_eq!(span.to_text(), "hello world");
    match entry.undo {
        EditOp::Delete { start, end } => {
            assert_eq!(start, pos(0, 5));
            assert_eq!(end, pos(0, 11));
        },
        EditOp::Insert { .. } => panic!("inverse of an insert must be a delete"),
    }
    let entry2 = span
        .apply_edit(EditOp::Delete { start: pos(0, 5), end: pos(0, 11) })
        .unwrap();
    assert_eq!(span.to_text(), "hello");
    match entry2.undo {
        EditOp::Insert { pos: p, text } => {
            assert_eq!(p, pos(0, 5));
            assert_eq!(text, " world");
        },
        EditOp::Delete { .. } => panic!("inverse of a delete must be an insert"),
    }
}

#[test]
fn apply_edit_rejects_out_of_bounds() {
    let mut span = SpanEditable::from_text("ab");
    let before = span.to_text();
    let r = span.apply_edit(EditOp::Insert { pos: pos(3, 0), text: String::from("x") });
    assert_eq!(r.err(), Some(EditErr::OutOfBounds));
    assert_eq!(span.to_text(), before);
    let r2 = span.apply_edit(EditOp::Delete { start: pos(0, 2), end: pos(0, 1) });
    assert_eq!(r2.err(), Some(EditErr::OutOfBounds));
    assert_eq!(span.to_text(), before);
}

#[test]
fn move_up_down_clamps_column() {
    let mut field = TextEditable::from_text("ab\ncdef");
    let (res, cur) = field.handle_edit_event(pos(1, 4), TextOp::Move(MoveDir::Up));
    assert_eq!(res, EditResult::Noop);
    assert_eq!(cur, Some(pos(0, 2)));
    let (_, cur2) = field.handle_edit_event(pos(0, 2), TextOp::Move(MoveDir::Down));
    assert_eq!(cur2, Some(pos(1, 2)));
}

#[test]
fn move_down_from_last_line() {
    // Without a trailing break there is no line below: the operation
    // aborts as a no-op with no cursor.
    let mut field = TextEditable::from_text("abc");
    let (res, cur) = field.handle_edit_event(pos(0, 1), TextOp::Move(MoveDir::Down));
    assert_eq!(res, EditResult::Noop);
    assert_eq!(cur, None);
    // With one, the simulated final line is reachable.
    let mut nl = TextEditable::from_text("abc\n");
    let (_, cur2) = nl.handle_edit_event(pos(0, 1), TextOp::Move(MoveDir::Down));
    assert_eq!(cur2, Some(pos(1, 0)));
}

#[test]
fn move_char_across_lines_and_multibyte() {
    let mut field = TextEditable::from_text("aé\nb");
    let right = TextOp::Move(MoveDir::Horizontal { unit: Unit::Char, dir: LeftRight::Right });
    let left = TextOp::Move(MoveDir::Horizontal { unit: Unit::Char, dir: LeftRight::Left });
    let (_, c1) = field.handle_edit_event(pos(0, 0), right);
    assert_eq!(c1, Some(pos(0, 1)));
    let right = TextOp::Move(MoveDir::Horizontal { unit: Unit::Char, dir: LeftRight::Right });
    let (_, c2) = field.handle_edit_event(pos(0, 2), right);
    assert_eq!(c2, Some(pos(1, 0)));
    let (_, c3) = field.handle_edit_event(pos(1, 0), left);
    assert_eq!(c3, Some(pos(0, 2)));
    // Saturation at the edges.
    let left = TextOp::Move(MoveDir::Horizontal { unit: Unit::Char, dir: LeftRight::Left });
    let (_, c4) = field.handle_edit_event(pos(0, 0), left);
    assert_eq!(c4, Some(pos(0, 0)));
}

#[test]
fn invalid_cursor_is_noop() {
    let mut field = TextEditable::from_text("ab");
    let before = field.to_text();
    let (res, cur) = field.handle_edit_event(
        pos(5, 7),
        TextOp::Delete { unit: Unit::Char, dir: LeftRight::Left },
    );
    assert_eq!(res, EditResult::Noop);
    assert_eq!(cur, None);
    assert_eq!(field.to_text(), before);
}

#[test]
fn line_delete_example() {
    // Deleting line-left from the end of "def" clears that line.
    let mut field = TextEditable::from_text("abc\ndef\n");
    let (res, cur) = field.handle_edit_event(
        pos(1, 3),
        TextOp::Delete { unit: Unit::Line, dir: LeftRight::Left },
    );
    assert_eq!(res, EditResult::Dirty);
    assert_eq!(cur, Some(pos(1, 0)));
    assert_eq!(field.to_text(), "abc\n\n");
}

#[test]
fn line_delete_steps_over_empty_line() {
    // With an adjacent break, exactly that one break is consumed, so an
    // empty line does not trap the cursor.
    let mut field = TextEditable::from_text("ab\n\ncd");
    let (res, cur) = field.handle_edit_event(
        pos(2, 0),
        TextOp::Delete { unit: Unit::Line, dir: LeftRight::Left },
    );
    assert_eq!(res, EditResult::Dirty);
    assert_eq!(cur, Some(pos(1, 0)));
    assert_eq!(field.to_text(), "ab\ncd");
}

#[test]
fn pos_helpers() {
    let p = Pos::from_pair(2, 5);
    assert_eq!(p.with_line(7), pos(7, 5));
    assert_eq!(p.with_column(0), pos(2, 0));
    assert_eq!(p, pos(2, 5));
}
