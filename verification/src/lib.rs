//! An in-memory editable text engine: a cursor moves through a multi-line
//! buffer by character, word and line boundaries, edits are applied through
//! an exact position-to-byte coordinate mapping, and every committed edit is
//! recorded together with its inverse in an undo/redo log.

pub mod charclass;
pub mod editing;
pub mod editor_view;
pub mod keyboard_edit;
pub mod laws;
pub mod model;
pub mod rope;
pub mod span_edit;
pub mod text_edit;
