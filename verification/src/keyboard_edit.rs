//! The keyboard binding layer: owns one editable field's cursor and log,
//! and maps raw key input (code plus modifier flags) to the operation
//! vocabulary.

use vstd::prelude::*;

use crate::editing::{EditResult, Pos};
use crate::model::{line_content, line_count, sim_final};
use crate::rope::{rope_line_len, rope_text};
use crate::span_edit::EditErr;
use crate::text_edit::{spec_handle, LeftRight, MoveDir, TextEditView, TextEditable, TextOp,
    TextOpView, Unit};

verus! {

/// A key, as the terminal input layer reports it; keys the editor does not
/// bind arrive as `Other`.
#[derive(Clone, Copy, Debug, PartialEq, Eq, Structural)]
pub enum KeyCode {
    Up,
    Down,
    Left,
    Right,
    Enter,
    Backspace,
    Delete,
    Char(char),
    Other,
}

/// The modifier flags the bindings read.
#[derive(Clone, Copy, Debug, PartialEq, Eq, Structural)]
pub struct KeyModifiers {
    pub ctrl: bool,
    pub alt: bool,
}

/// One raw input event: a key code with its modifiers.
#[derive(Clone, Copy, Debug, PartialEq, Eq, Structural)]
pub struct KeyInput {
    pub code: KeyCode,
    pub modifiers: KeyModifiers,
}

/// The canonical key bindings: what operation a raw input maps to, if any.
pub open spec fn spec_map_key(key: KeyInput) -> Option<TextOpView> {
    let ctrl = key.modifiers.ctrl;
    let alt = key.modifiers.alt;
    match key.code {
        KeyCode::Up => Some(TextOpView::Move(MoveDir::Up)),
        KeyCode::Down => Some(TextOpView::Move(MoveDir::Down)),
        KeyCode::Left => Some(
            TextOpView::Move(MoveDir::Horizontal { unit: Unit::Char, dir: LeftRight::Left }),
        ),
        KeyCode::Right => Some(
            TextOpView::Move(MoveDir::Horizontal { unit: Unit::Char, dir: LeftRight::Right }),
        ),
        KeyCode::Enter => Some(TextOpView::InsertText(seq!['\n'])),
        KeyCode::Backspace => {
            if alt {
                Some(TextOpView::Delete { unit: Unit::Word, dir: LeftRight::Left })
            } else {
                Some(TextOpView::Delete { unit: Unit::Char, dir: LeftRight::Left })
            }
        },
        KeyCode::Delete => Some(TextOpView::Delete { unit: Unit::Line, dir: LeftRight::Right }),
        KeyCode::Char(c) => {
            if c == 'a' && ctrl {
                Some(TextOpView::Move(MoveDir::Horizontal { unit: Unit::Line, dir: LeftRight::Left }))
            } else if c == 'b' && alt {
                Some(TextOpView::Move(MoveDir::Horizontal { unit: Unit::Word, dir: LeftRight::Left }))
            } else if c == 'e' && ctrl {
                Some(
                    TextOpView::Move(MoveDir::Horizontal { unit: Unit::Line, dir: LeftRight::Right }),
                )
            } else if c == 'f' && alt {
                Some(
                    TextOpView::Move(MoveDir::Horizontal { unit: Unit::Word, dir: LeftRight::Right }),
                )
            } else if c == 'u' && ctrl {
                Some(TextOpView::Delete { unit: Unit::Line, dir: LeftRight::Left })
            } else if c == 'd' && alt {
                Some(TextOpView::Delete { unit: Unit::Word, dir: LeftRight::Right })
            } else if c == 'd' && ctrl {
                Some(TextOpView::Delete { unit: Unit::Char, dir: LeftRight::Right })
            } else if c == 'z' && ctrl {
                Some(TextOpView::Undo)
            } else if c == 'r' && ctrl {
                Some(TextOpView::Redo)
            } else {
                Some(TextOpView::InsertText(seq![c]))
            }
        },
        KeyCode::Other => None,
    }
}

/// Relies on `char::to_string`: the string holding exactly this character.
#[verifier::external_body]
fn char_to_string(c: char) -> (s: String)
    ensures
        s@ == seq![c],
{
    c.to_string()
}

/// The cursor placed at the logical end of a text: the end of the last
/// line the buffer iterates, or the origin of an empty buffer.
pub open spec fn spec_end_cursor(s: Seq<char>) -> Pos {
    if line_count(s) == 0 {
        Pos { line: 0, column: 0 }
    } else {
        Pos {
            line: (line_count(s) - 1) as usize,
            column: line_content(s, line_count(s) - 1).len() as usize,
        }
    }
}

/// The ghost state of a keyboard-driven editable field.
pub struct KeyboardEditView {
    pub field: TextEditView,
    pub cursor: Pos,
}

/// One editable text field driven by key input: the text, its undo/redo
/// log, and the cursor.
pub struct KeyboardEditable {
    text: TextEditable,
    cursor: Pos,
}

impl View for KeyboardEditable {
    type V = KeyboardEditView;

    closed spec fn view(&self) -> KeyboardEditView {
        KeyboardEditView { field: self.text@, cursor: self.cursor }
    }
}

impl KeyboardEditable {
    /// Borrows the underlying buffer.
    pub fn inner(&self) -> (r: &crop::Rope)
        ensures
            rope_text(*r) == self@.field.text,
    {
        self.text.inner()
    }

    /// The whole text as an owned string.
    pub fn to_text(&self) -> (t: String)
        ensures
            t@ == self@.field.text,
    {
        self.text.to_text()
    }

    /// The current cursor position.
    pub fn cursor(&self) -> (r: Pos)
        ensures
            r == self@.cursor,
    {
        self.cursor
    }

    /// Builds a field around an existing buffer, with the cursor at the
    /// origin or at the logical end of the text.
    pub fn from_rope(rope: crop::Rope, cursor_at_end: bool) -> (r: Self)
        ensures
            r@.field.text == rope_text(rope),
            r@.field.entries.len() == 0,
            r@.field.next_index == 0,
            r@.cursor == if cursor_at_end {
                spec_end_cursor(rope_text(rope))
            } else {
                Pos { line: 0, column: 0 }
            },
    {
        let text = TextEditable::from_rope(rope);
        let cursor = if cursor_at_end {
            Self::end_cursor(&text)
        } else {
            Pos { line: 0, column: 0 }
        };
        KeyboardEditable { text, cursor }
    }

    /// Builds a field holding the given text.
    pub fn from_text(text: &str, cursor_at_end: bool) -> (r: Self)
        ensures
            r@.field.text == text@,
            r@.field.entries.len() == 0,
            r@.field.next_index == 0,
            r@.cursor == if cursor_at_end {
                spec_end_cursor(text@)
            } else {
                Pos { line: 0, column: 0 }
            },
    {
        let field = TextEditable::from_text(text);
        let cursor = if cursor_at_end {
            Self::end_cursor(&field)
        } else {
            Pos { line: 0, column: 0 }
        };
        KeyboardEditable { text: field, cursor }
    }

    /// The cursor at the logical end of the field's text.
    fn end_cursor(text: &TextEditable) -> (r: Pos)
        ensures
            r == spec_end_cursor(text@.text),
    {
        let ll = rope_line_len(text.inner());
        if ll == 0 {
            Pos { line: 0, column: 0 }
        } else {
            match text.get_line_char_len(ll - 1) {
                Ok(n) => Pos { line: ll - 1, column: n },
                Err(_) => {
                    proof {
                        assert(false);
                    }
                    Pos { line: 0, column: 0 }
                },
            }
        }
    }

    /// Maps a raw key event to an operation; unbound input maps to nothing
    /// so the caller can treat it as unhandled.
    pub fn map_key_event(key_event: KeyInput) -> (r: Option<TextOp>)
        ensures
            match r {
                Some(op) => spec_map_key(key_event) == Some(op@),
                None => spec_map_key(key_event) is None,
            },
    {
        let ctrl = key_event.modifiers.ctrl;
        let alt = key_event.modifiers.alt;
        let op = match key_event.code {
            KeyCode::Up => TextOp::Move(MoveDir::Up),
            KeyCode::Down => TextOp::Move(MoveDir::Down),
            KeyCode::Left => TextOp::Move(
                MoveDir::Horizontal { unit: Unit::Char, dir: LeftRight::Left },
            ),
            KeyCode::Right => TextOp::Move(
                MoveDir::Horizontal { unit: Unit::Char, dir: LeftRight::Right },
            ),
            KeyCode::Enter => {
                let s = char_to_string('\n');
                TextOp::InsertText(s)
            },
            KeyCode::Backspace => {
                if alt {
                    TextOp::Delete { unit: Unit::Word, dir: LeftRight::Left }
                } else {
                    TextOp::Delete { unit: Unit::Char, dir: LeftRight::Left }
                }
            },
            KeyCode::Delete => TextOp::Delete { unit: Unit::Line, dir: LeftRight::Right },
            KeyCode::Char(c) => {
                if c == 'a' && ctrl {
                    TextOp::Move(MoveDir::Horizontal { unit: Unit::Line, dir: LeftRight::Left })
                } else if c == 'b' && alt {
                    TextOp::Move(MoveDir::Horizontal { unit: Unit::Word, dir: LeftRight::Left })
                } else if c == 'e' && ctrl {
                    TextOp::Move(MoveDir::Horizontal { unit: Unit::Line, dir: LeftRight::Right })
                } else if c == 'f' && alt {
                    TextOp::Move(MoveDir::Horizontal { unit: Unit::Word, dir: LeftRight::Right })
                } else if c == 'u' && ctrl {
                    TextOp::Delete { unit: Unit::Line, dir: LeftRight::Left }
                } else if c == 'd' && alt {
                    TextOp::Delete { unit: Unit::Word, dir: LeftRight::Right }
                } else if c == 'd' && ctrl {
                    TextOp::Delete { unit: Unit::Char, dir: LeftRight::Right }
                } else if c == 'z' && ctrl {
                    TextOp::Undo
                } else if c == 'r' && ctrl {
                    TextOp::Redo
                } else {
                    TextOp::InsertText(char_to_string(c))
                }
            },
            KeyCode::Other => {
                return None;
            },
        };
        Some(op)
    }

    /// Applies one operation to the field; on a `Some` cursor outcome the
    /// stored cursor moves there, otherwise it stays where it was.
    pub fn apply_text_op(&mut self, op: TextOp) -> (r: EditResult)
        ensures
            ({
                let (v2, res, np) = spec_handle(old(self)@.field, old(self)@.cursor, op@);
                &&& final(self)@.field == v2
                &&& r == res
                &&& final(self)@.cursor == match np {
                    Some(p) => p,
                    None => old(self)@.cursor,
                }
            }),
    {
        let (edit_result, new_pos) = self.text.handle_edit_event(self.cursor, op);
        if let Some(new_pos) = new_pos {
            self.cursor = new_pos;
        }
        edit_result
    }
}

} // verus!
