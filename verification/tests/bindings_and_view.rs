//! Key bindings, the keyboard-driven field, and the editor scroll state.

use text_edit::editing::{EditResult, Pos};
use text_edit::editor_view::{EditorFocus, EditorTui};
use text_edit::keyboard_edit::{KeyCode, KeyInput, KeyModifiers, KeyboardEditable};
use text_edit::text_edit::{LeftRight, MoveDir, TextOp, Unit};

fn pos(line: usize, column: usize) -> Pos {
    Pos { line, column }
}

fn key(code: KeyCode) -> KeyInput {
    KeyInput { code, modifiers: KeyModifiers { ctrl: false, alt: false } }
}

fn ctrl(c: char) -> KeyInput {
    KeyInput { code: KeyCode::Char(c), modifiers: KeyModifiers { ctrl: true, alt: false } }
}

fn alt(c: char) -> KeyInput {
    KeyInput { code: KeyCode::Char(c), modifiers: KeyModifiers { ctrl: false, alt: true } }
}

#[test]
fn canonical_bindings() {
    assert!(matches!(
        KeyboardEditable::map_key_event(key(KeyCode::Up)),
        Some(TextOp::Move(MoveDir::Up))
    ));
    assert!(matches!(
        KeyboardEditable::map_key_event(key(KeyCode::Down)),
        Some(TextOp::Move(MoveDir::Down))
    ));
    assert!(matches!(
        KeyboardEditable::map_key_event(key(KeyCode::Left)),
        Some(TextOp::Move(MoveDir::Horizontal { unit: Unit::Char, dir: LeftRight::Left }))
    ));
    assert!(matches!(
        KeyboardEditable::map_key_event(key(KeyCode::Right)),
        Some(TextOp::Move(MoveDir::Horizontal { unit: Unit::Char, dir: LeftRight::Right }))
    ));
    assert!(matches!(
        KeyboardEditable::map_key_event(ctrl('a')),
        Some(TextOp::Move(MoveDir::Horizontal { unit: Unit::Line, dir: LeftRight::Left }))
    ));
    assert!(matches!(
        KeyboardEditable::map_key_event(ctrl('e')),
        Some(TextOp::Move(MoveDir::Horizontal { unit: Unit::Line, dir: LeftRight::Right }))
    ));
    assert!(matches!(
        KeyboardEditable::map_key_event(alt('b')),
        Some(TextOp::Move(MoveDir::Horizontal { unit: Unit::Word, dir: LeftRight::Left }))
    ));
    assert!(matches!(
        KeyboardEditable::map_key_event(alt('f')),
        Some(TextOp::Move(MoveDir::Horizontal { unit: Unit::Word, dir: LeftRight::Right }))
    ));
    assert!(matches!(
        KeyboardEditable::map_key_event(ctrl('u')),
        Some(TextOp::Delete { unit: Unit::Line, dir: LeftRight::Left })
    ));
    assert!(matches!(
        KeyboardEditable::map_key_event(key(KeyCode::Backspace)),
        Some(TextOp::Delete { unit: Unit::Char, dir: LeftRight::Left })
    ));
    let alt_backspace = KeyInput {
        code: KeyCode::Backspace,
        modifiers: KeyModifiers { ctrl: false, alt: true },
    };
    assert!(matches!(
        KeyboardEditable::map_key_event(alt_backspace),
        Some(TextOp::Delete { unit: Unit::Word, dir: LeftRight::Left })
    ));
    assert!(matches!(
        KeyboardEditable::map_key_event(key(KeyCode::Delete)),
        Some(TextOp::Delete { unit: Unit::Line, dir: LeftRight::Right })
    ));
    assert!(matches!(
        KeyboardEditable::map_key_event(alt('d')),
        Some(TextOp::Delete { unit: Unit::Word, dir: LeftRight::Right })
    ));
    assert!(matches!(
        KeyboardEditable::map_key_event(ctrl('d')),
        Some(TextOp::Delete { unit: Unit::Char, dir: LeftRight::Right })
    ));
    assert!(matches!(KeyboardEditable::map_key_event(ctrl('z')), Some(TextOp::Undo)));
    assert!(matches!(KeyboardEditable::map_key_event(ctrl('r')), Some(TextOp::Redo)));
    assert!(KeyboardEditable::map_key_event(key(KeyCode::Other)).is_none());
}

#[test]
fn enter_inserts_single_newline() {
    match KeyboardEditable::map_key_event(key(KeyCode::Enter)) {
        Some(TextOp::InsertText(s)) => assert_eq!(s, "\n"),
        _ => panic!("Enter must insert a newline"),
    }
}

#[test]
fn printable_char_inserts_itself() {
    match KeyboardEditable::map_key_event(key(KeyCode::Char('q'))) {
        Some(TextOp::InsertText(s)) => assert_eq!(s, "q"),
        _ => panic!("a printable key must insert its character"),
    }
    // A plain 'a' without control is ordinary input.
    match KeyboardEditable::map_key_event(key(KeyCode::Char('a'))) {
        Some(TextOp::InsertText(s)) => assert_eq!(s, "a"),
        _ => panic!("'a' without control must insert itself"),
    }
}

#[test]
fn keyboard_field_edits_through_keys() {
    let mut field = KeyboardEditable::from_text("hello", true);
    assert_eq!(field.cursor(), pos(0, 5));
    let op = KeyboardEditable::map_key_event(key(KeyCode::Char('!'))).unwrap();
    let res = field.apply_text_op(op);
    assert_eq!(res, EditResult::Dirty);
    assert_eq!(field.to_text(), "hello!");
    assert_eq!(field.cursor(), pos(0, 6));
    let undo = KeyboardEditable::map_key_event(ctrl('z')).unwrap();
    let res2 = field.apply_text_op(undo);
    assert_eq!(res2, EditResult::Dirty);
    assert_eq!(field.to_text(), "hello");
    assert_eq!(field.cursor(), pos(0, 5));
}

#[test]
fn keyboard_field_cursor_placement() {
    let at_start = KeyboardEditable::from_text("ab\ncd", false);
    assert_eq!(at_start.cursor(), pos(0, 0));
    let at_end = KeyboardEditable::from_text("ab\ncd", true);
    assert_eq!(at_end.cursor(), pos(1, 2));
    // The final simulated line is not an iterated line, so the end cursor
    // sits at the end of the last real line.
    let trailing = KeyboardEditable::from_text("ab\n", true);
    assert_eq!(trailing.cursor(), pos(0, 2));
    let empty = KeyboardEditable::from_text("", true);
    assert_eq!(empty.cursor(), pos(0, 0));
}

#[test]
fn keyboard_field_from_rope() {
    let rope = crop::Rope::from("one\ntwo");
    let field = KeyboardEditable::from_rope(rope, true);
    assert_eq!(field.cursor(), pos(1, 3));
    assert_eq!(field.to_text(), "one\ntwo");
    assert_eq!(field.inner().byte_len(), 7);
}

#[test]
fn undo_on_fresh_keyboard_field() {
    let mut field = KeyboardEditable::from_text("abc", true);
    let before = field.cursor();
    let res = field.apply_text_op(TextOp::Undo);
    assert_eq!(res, EditResult::Noop);
    assert_eq!(field.cursor(), before);
    assert_eq!(field.to_text(), "abc");
}

#[test]
fn editor_scroll_state() {
    let mut view = EditorTui::new();
    assert_eq!(view.view_offset(), 0);
    view.scroll_up();
    assert_eq!(view.view_offset(), 0);
    view.scroll_down(10);
    assert_eq!(view.view_offset(), 1);
    view.scroll_down(10);
    assert_eq!(view.view_offset(), 2);
    // Scrolling down never passes the last line.
    view.scroll_down(3);
    assert_eq!(view.view_offset(), 2);
    view.scroll_down(0);
    assert_eq!(view.view_offset(), 0);
    view.scroll_down(10);
    view.set_text("fresh");
    assert_eq!(view.view_offset(), 0);
}

#[test]
fn editor_focus_default() {
    assert_eq!(EditorFocus::default(), EditorFocus::Unlocked);
    assert!(EditorFocus::Locked != EditorFocus::Unlocked);
}
