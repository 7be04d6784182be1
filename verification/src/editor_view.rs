//! The editor's scroll state: the first visible line of the rendered text,
//! moved one line at a time and reset when the text is replaced.

use vstd::prelude::*;

verus! {

/// Whether key input is routed into the editor or handled by its
/// surroundings.
#[derive(Debug, Clone, Copy, PartialEq, Eq, Structural)]
pub enum EditorFocus {
    Unlocked,
    Locked,
}

impl Default for EditorFocus {
    fn default() -> (r: Self)
        ensures
            r == EditorFocus::Unlocked,
    {
        EditorFocus::Unlocked
    }
}

/// The scroll state of one rendered editor: the index of the first line in
/// view. Its view is that index.
pub struct EditorTui {
    view_offset: usize,
}

impl View for EditorTui {
    type V = int;

    closed spec fn view(&self) -> int {
        self.view_offset as int
    }
}

impl EditorTui {
    /// A fresh editor view, scrolled to the top.
    pub fn new() -> (r: Self)
        ensures
            r@ == 0,
    {
        EditorTui { view_offset: 0 }
    }

    /// The index of the first visible line.
    pub fn view_offset(&self) -> (r: usize)
        ensures
            r as int == self@,
    {
        self.view_offset
    }

    /// Scrolls one line up, saturating at the top.
    pub fn scroll_up(&mut self)
        ensures
            final(self)@ == if old(self)@ > 0 {
                old(self)@ - 1
            } else {
                0
            },
    {
        if self.view_offset > 0 {
            self.view_offset = self.view_offset - 1;
        }
    }

    /// Scrolls one line down, never past the line one short of
    /// `line_count`.
    pub fn scroll_down(&mut self, line_count: usize)
        ensures
            ({
                let m = if old(self)@ + 2 <= line_count {
                    old(self)@ + 2
                } else {
                    line_count as int
                };
                final(self)@ == if m > 0 {
                    m - 1
                } else {
                    0
                }
            }),
    {
        let m = if self.view_offset >= line_count {
            line_count
        } else if line_count - self.view_offset >= 2 {
            self.view_offset + 2
        } else {
            line_count
        };
        self.view_offset = if m > 0 {
            m - 1
        } else {
            0
        };
    }

    /// Resets the scroll position for freshly set text.
    pub fn set_text(&mut self, text: &str)
        ensures
            final(self)@ == 0,
    {
        self.view_offset = 0;
    }
}

} // verus!
