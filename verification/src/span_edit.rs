//! The coordinate mapper: an editable span of packed text addressed by
//! `(line, column)` positions, with exact, invertible conversion to byte
//! offsets, and primitive edits that return their own inverse.

use vstd::prelude::*;

use crate::charclass::{char_is_newline, char_len_utf8};
use crate::editing::Pos;
use crate::model::{byte_len_of, char_floor, ends_in_nl, is_boundary, lemma_byte_le_iff,
    lemma_byte_len_bounds, lemma_byte_len_concat, lemma_byte_len_encode, lemma_byte_len_take_mono, lemma_byte_len_take_succ, lemma_char_floor_floor,
    lemma_char_floor_iff, lemma_char_floor_of_take, lemma_idx_in_line, lemma_line_content,
    lemma_line_count_le_len, lemma_line_count_pos, lemma_line_shape, lemma_line_start_bounds,
    lemma_line_start_full, lemma_line_start_prefix, lemma_nl_count_bounds,
    lemma_nl_count_take_succ, lemma_pos_cidx, line_content, line_count, line_start, nl_count,
    pos_byte, pos_cidx, pos_valid, post_insert_pos, sim_final, spec_line_char_len,
    spec_pos_from_byte};
use crate::rope::{rope_byte_len, rope_byte_of_line, rope_char_after, rope_char_before,
    rope_delete, rope_from_str, rope_insert, rope_is_char_boundary, rope_line_len,
    rope_line_of_byte,
    rope_slice_to_string, rope_text, rope_to_string};

verus! {

/// A primitive, invertible buffer mutation in cursor coordinates: insert
/// text at a position, or remove the half-open span between two positions.
pub enum EditOp {
    Insert { pos: Pos, text: String },
    Delete { start: Pos, end: Pos },
}

/// The ghost shape of an [`EditOp`], carrying the text as a character
/// sequence.
pub enum EditOpView {
    Insert { pos: Pos, text: Seq<char> },
    Delete { start: Pos, end: Pos },
}

impl View for EditOp {
    type V = EditOpView;

    open spec fn view(&self) -> EditOpView {
        match *self {
            EditOp::Insert { pos, text } => EditOpView::Insert { pos, text: text@ },
            EditOp::Delete { start, end } => EditOpView::Delete { start, end },
        }
    }
}

/// The single error kind: a position outside the legal range.
#[derive(Clone, Copy, Debug, PartialEq, Eq, Structural)]
pub enum EditErr {
    OutOfBounds,
}

/// A committed edit paired with its exact inverse, computed at the moment
/// the edit was applied.
pub struct LogEntry {
    pub edit: EditOp,
    pub undo: EditOp,
}

/// The ghost shape of a [`LogEntry`].
pub struct LogEntryView {
    pub edit: EditOpView,
    pub undo: EditOpView,
}

impl View for LogEntry {
    type V = LogEntryView;

    open spec fn view(&self) -> LogEntryView {
        LogEntryView { edit: self.edit@, undo: self.undo@ }
    }
}

/// What applying an edit does: the new text and the log entry holding the
/// edit with its inverse, or nothing when a position is rejected or the
/// span is reversed.
pub open spec fn spec_apply_edit(s: Seq<char>, op: EditOpView) -> Option<
    (Seq<char>, LogEntryView),
> {
    match op {
        EditOpView::Insert { pos, text } => {
            if pos_valid(s, pos) {
                let k = pos_cidx(s, pos);
                Some(
                    (
                        s.take(k) + text + s.skip(k),
                        LogEntryView {
                            edit: op,
                            undo: EditOpView::Delete {
                                start: pos,
                                end: post_insert_pos(pos, text),
                            },
                        },
                    ),
                )
            } else {
                None
            }
        },
        EditOpView::Delete { start, end } => {
            if pos_valid(s, start) && pos_valid(s, end) && pos_byte(s, start) <= pos_byte(
                s,
                end,
            ) {
                let k1 = pos_cidx(s, start);
                let k2 = pos_cidx(s, end);
                Some(
                    (
                        s.take(k1) + s.skip(k2),
                        LogEntryView {
                            edit: op,
                            undo: EditOpView::Insert { pos: start, text: s.subrange(k1, k2) },
                        },
                    ),
                )
            } else {
                None
            }
        },
    }
}

/// An editable span of packed text. Its view is the character sequence it
/// holds.
pub struct SpanEditable {
    rope: crop::Rope,
}

impl View for SpanEditable {
    type V = Seq<char>;

    closed spec fn view(&self) -> Seq<char> {
        rope_text(self.rope)
    }
}

impl SpanEditable {
    /// Wraps an existing buffer.
    pub fn from_rope(rope: crop::Rope) -> (r: Self)
        ensures
            r@ == rope_text(rope),
    {
        SpanEditable { rope }
    }

    /// Builds a span holding the given text.
    pub fn from_text(text: &str) -> (r: Self)
        ensures
            r@ == text@,
    {
        SpanEditable { rope: rope_from_str(text) }
    }

    /// Borrows the underlying buffer.
    pub fn inner(&self) -> (r: &crop::Rope)
        ensures
            rope_text(*r) == self@,
    {
        &self.rope
    }

    /// The whole text as an owned string.
    pub fn to_text(&self) -> (t: String)
        ensures
            t@ == self@,
    {
        rope_to_string(&self.rope)
    }

    /// Whether `pos` is the valid cursor slot just past a final line break
    /// (or the origin of an empty buffer).
    pub fn is_simulated_final_newline(&self, pos: Pos) -> (r: bool)
        ensures
            r == sim_final(self@, pos),
    {
        let ll = rope_line_len(&self.rope);
        if pos.line != ll || pos.column != 0 {
            return false;
        }
        let total = rope_byte_len(&self.rope);
        proof {
            assert(self@.take(self@.len() as int) =~= self@);
            lemma_char_floor_of_take(self@, self@.len() as int);
        }
        match rope_char_before(&self.rope, total) {
            None => true,
            Some(c) => char_is_newline(c),
        }
    }

    /// Counts the characters of line `line`'s content (its text without the
    /// line terminator).
    fn count_line_content(&self, line: usize) -> (n: usize)
        requires
            line < line_count(self@),
        ensures
            n == line_content(self@, line as int).len(),
    {
        let ghost s = self@;
        let ghost l = line as int;
        proof {
            lemma_line_shape(s, l);
            lemma_line_content(s, l);
            lemma_line_start_bounds(s, l);
        }
        let ghost ls = line_start(s, l);
        let ghost clen = line_content(s, l).len() as int;
        let ghost le = line_start(s, l + 1);
        let total = rope_byte_len(&self.rope);
        let start_b = rope_byte_of_line(&self.rope, line);
        let mut cur = start_b;
        let mut k: usize = 0;
        proof {
            lemma_byte_len_bounds(s);
        }
        loop
            invariant
                0 <= k as int <= clen,
                cur as int == byte_len_of(s.take(ls + k)),
                total as int == byte_len_of(s),
                s == self@,
                l == line as int,
                ls == line_start(s, l),
                le == line_start(s, l + 1),
                clen == line_content(s, l).len() as int,
                line < line_count(s),
                s.len() <= total as int,
            ensures
                k as int == clen,
            decreases clen - k,
        {
            proof {
                lemma_line_shape(s, l);
                lemma_line_content(s, l);
                lemma_char_floor_of_take(s, ls + k);
                lemma_byte_len_take_mono(s, ls + k, s.len() as int);
                assert(s.take(s.len() as int) =~= s);
            }
            let c_opt = rope_char_after(&self.rope, cur);
            match c_opt {
                None => {
                    proof {
                        // The text ended, so the content did too.
                        assert(ls + k as int == s.len());
                        assert(ls + clen <= s.len());
                        assert(k as int == clen);
                    }
                    break ;
                },
                Some(ch) => {
                    proof {
                        if (k as int) < clen {
                            assert(ch == s[ls + k]);
                            assert(s[ls + k] == line_content(s, l)[k as int]);
                        }
                    }
                    if ch == '\n' {
                        proof {
                            assert(k as int == clen);
                        }
                        break ;
                    }
                    let w = char_len_utf8(ch);
                    proof {
                        lemma_byte_len_take_succ(s, ls + k);
                        lemma_byte_len_take_mono(s, ls + k + 1, s.len() as int);
                        lemma_char_floor_of_take(s, ls + k + 1);
                    }
                    if ch == '\r' {
                        let c2 = rope_char_after(&self.rope, cur + w);
                        let is_term = match c2 {
                            Some(c2v) => c2v == '\n',
                            None => false,
                        };
                        if is_term {
                            proof {
                                // A `"\r\n"` ahead is the line terminator:
                                // inside the content the next character is a
                                // content character or the terminator start,
                                // and neither is a `'\n'`.
                                if (k as int) < clen {
                                    if k as int + 1 < clen {
                                        assert(s[ls + k + 1] == line_content(s, l)[k as int + 1]);
                                    } else {
                                        assert(ls + k + 1 == ls + clen);
                                    }
                                }
                                assert(k as int == clen);
                            }
                            break ;
                        }
                        proof {
                            // Not a terminator, so the content goes on.
                            if (k as int) == clen {
                                assert(le - (ls + clen) != 0);
                                assert(le - (ls + clen) != 1);
                                assert(s[ls + clen + 1] == '\n');
                                assert(false);
                            }
                        }
                    } else {
                        proof {
                            if (k as int) == clen {
                                assert(le - (ls + clen) != 0);
                                assert(ch == s[ls + clen]);
                                assert(false);
                            }
                        }
                    }
                    cur = cur + w;
                    k = k + 1;
                },
            }
        }
        k
    }

    /// Byte offset of the character `column` places into line `line`.
    fn byte_at_column(&self, line: usize, column: usize) -> (b: usize)
        requires
            line < line_count(self@),
            column <= line_content(self@, line as int).len(),
        ensures
            b as int == byte_len_of(self@.take(line_start(self@, line as int) + column)),
    {
        let ghost s = self@;
        let ghost l = line as int;
        proof {
            lemma_line_shape(s, l);
            lemma_line_content(s, l);
            lemma_line_start_bounds(s, l);
            lemma_byte_len_bounds(s);
        }
        let ghost ls = line_start(s, l);
        let total = rope_byte_len(&self.rope);
        let start_b = rope_byte_of_line(&self.rope, line);
        let mut cur = start_b;
        let mut k: usize = 0;
        while k < column
            invariant
                0 <= k <= column,
                column <= line_content(s, l).len(),
                cur as int == byte_len_of(s.take(ls + k)),
                total as int == byte_len_of(s),
                s == self@,
                l == line as int,
                ls == line_start(s, l),
                line < line_count(s),
            decreases column - k,
        {
            proof {
                lemma_line_shape(s, l);
                lemma_line_content(s, l);
                lemma_char_floor_of_take(s, ls + k);
                lemma_byte_len_take_mono(s, ls + k, s.len() as int);
                assert(s.take(s.len() as int) =~= s);
                assert(ls + k < s.len());
            }
            let c = match rope_char_after(&self.rope, cur) {
                Some(c) => c,
                None => {
                    proof {
                        assert(false);
                    }
                    ' '
                },
            };
            let w = char_len_utf8(c);
            proof {
                lemma_byte_len_take_succ(s, ls + k);
                lemma_byte_len_take_mono(s, ls + k + 1, s.len() as int);
            }
            cur = cur + w;
            k = k + 1;
        }
        cur
    }

    /// The number of characters line `line` holds: zero for the simulated
    /// final line, the content length for a real line, out of bounds above
    /// them.
    pub fn get_line_char_len(&self, line: usize) -> (r: Result<usize, EditErr>)
        ensures
            match r {
                Ok(n) => spec_line_char_len(self@, line as int) == Some(n as int),
                Err(e) => spec_line_char_len(self@, line as int) is None && e
                    == EditErr::OutOfBounds,
            },
    {
        let ll = rope_line_len(&self.rope);
        if line == ll {
            let total = rope_byte_len(&self.rope);
            proof {
                assert(self@.take(self@.len() as int) =~= self@);
                lemma_char_floor_of_take(self@, self@.len() as int);
            }
            let ends_break = match rope_char_before(&self.rope, total) {
                None => true,
                Some(c) => char_is_newline(c),
            };
            if ends_break {
                return Ok(0);
            } else {
                return Err(EditErr::OutOfBounds);
            }
        }
        if line > ll {
            return Err(EditErr::OutOfBounds);
        }
        Ok(self.count_line_content(line))
    }

    /// The byte offset a position addresses; out of bounds exactly when the
    /// position violates the validity invariant. Invalid positions are
    /// rejected, never clamped.
    pub fn get_byte(&self, pos: Pos) -> (r: Result<usize, EditErr>)
        ensures
            match r {
                Ok(b) => pos_valid(self@, pos) && b as int == pos_byte(self@, pos),
                Err(e) => !pos_valid(self@, pos) && e == EditErr::OutOfBounds,
            },
    {
        if self.is_simulated_final_newline(pos) {
            proof {
                assert(self@.take(self@.len() as int) =~= self@);
            }
            return Ok(rope_byte_len(&self.rope));
        }
        let ll = rope_line_len(&self.rope);
        if pos.line >= ll {
            return Err(EditErr::OutOfBounds);
        }
        let clen = self.count_line_content(pos.line);
        if pos.column > clen {
            return Err(EditErr::OutOfBounds);
        }
        Ok(self.byte_at_column(pos.line, pos.column))
    }

    /// The position owning a byte offset: the simulated slot or the end of
    /// the last line at the very end of the text, otherwise the owning line
    /// with the column of the characters of that line lying wholly before
    /// the offset.
    pub fn pos_from_byte(&self, byte_pos: usize) -> (r: Result<Pos, EditErr>)
        ensures
            match r {
                Ok(p) => byte_pos as int <= byte_len_of(self@) && p == spec_pos_from_byte(
                    self@,
                    byte_pos as int,
                ),
                Err(e) => byte_pos as int > byte_len_of(self@) && e == EditErr::OutOfBounds,
            },
    {
        let ghost s = self@;
        let total = rope_byte_len(&self.rope);
        if byte_pos > total {
            return Err(EditErr::OutOfBounds);
        }
        proof {
            lemma_byte_len_bounds(s);
        }
        if byte_pos == total {
            proof {
                assert(s.take(s.len() as int) =~= s);
                lemma_char_floor_of_take(s, s.len() as int);
            }
            let ll = rope_line_len(&self.rope);
            match rope_char_before(&self.rope, total) {
                None => {
                    return Ok(Pos { line: ll, column: 0 });
                },
                Some(c) => {
                    if char_is_newline(c) {
                        return Ok(Pos { line: ll, column: 0 });
                    }
                    proof {
                        lemma_line_count_pos(s);
                    }
                    let n = self.count_line_content(ll - 1);
                    return Ok(Pos { line: ll - 1, column: n });
                },
            }
        }
        // byte_pos < total: floor the offset to its character boundary (an
        // offset inside a character's encoding owns the characters wholly
        // before it), find the owning line, then the column.
        let ghost kf = char_floor(s, byte_pos as int);
        proof {
            lemma_char_floor_floor(s, byte_pos as int);
            if kf == s.len() {
                assert(s.take(kf) =~= s);
            }
            lemma_idx_in_line(s, kf);
        }
        let mut bf = byte_pos;
        loop
            invariant
                s == self@,
                total as int == byte_len_of(s),
                byte_pos < total,
                kf == char_floor(s, byte_pos as int),
                0 <= kf <= s.len(),
                byte_len_of(s.take(kf)) <= bf as int <= byte_pos as int,
                char_floor(s, bf as int) == kf,
            ensures
                bf <= byte_pos,
                char_floor(s, bf as int) == kf,
                is_boundary(s, bf as int),
                bf as int <= byte_len_of(s),
            decreases bf,
        {
            if rope_is_char_boundary(&self.rope, bf) {
                break ;
            }
            proof {
                lemma_char_floor_of_take(s, kf);
                assert(bf as int > byte_len_of(s.take(kf)));
                lemma_char_floor_iff(s, bf as int - 1, kf);
                lemma_char_floor_floor(s, bf as int - 1);
                lemma_char_floor_iff(s, bf as int, char_floor(s, bf as int - 1));
            }
            bf = bf - 1;
        }
        let line = rope_line_of_byte(&self.rope, bf);
        let ghost l = line as int;
        let ghost ls = line_start(s, l);
        let clen = self.count_line_content(line);
        let start_b = rope_byte_of_line(&self.rope, line);
        proof {
            lemma_line_shape(s, l);
            lemma_line_content(s, l);
            // The line start precedes the offset.
            lemma_char_floor_of_take(s, ls);
            lemma_byte_le_iff(s, ls, kf);
        }
        let mut cur = start_b;
        let mut k: usize = 0;
        let ghost col_spec: int = if kf - ls <= clen as int {
            kf - ls
        } else {
            clen as int
        };
        while k < clen
            invariant
                0 <= k as int <= col_spec,
                col_spec == if kf - ls <= clen as int {
                    kf - ls
                } else {
                    clen as int
                },
                col_spec <= clen as int,
                cur as int == byte_len_of(s.take(ls + k)),
                cur as int <= byte_pos as int,
                total as int == byte_len_of(s),
                byte_pos < total,
                s == self@,
                l == line as int,
                ls == line_start(s, l),
                kf == char_floor(s, byte_pos as int),
                ls <= kf,
                clen as int == line_content(s, l).len() as int,
                line < line_count(s),
            ensures
                k as int == col_spec,
            decreases clen - k,
        {
            proof {
                lemma_line_shape(s, l);
                lemma_line_content(s, l);
                lemma_char_floor_of_take(s, ls + k);
                lemma_byte_len_take_mono(s, ls + k, s.len() as int);
                assert(s.take(s.len() as int) =~= s);
                assert(ls + k < s.len());
            }
            let c = match rope_char_after(&self.rope, cur) {
                Some(c) => c,
                None => {
                    proof {
                        assert(false);
                    }
                    ' '
                },
            };
            let w = char_len_utf8(c);
            proof {
                lemma_byte_len_take_succ(s, ls + k);
                lemma_byte_len_take_mono(s, ls + k + 1, s.len() as int);
                lemma_char_floor_iff(s, byte_pos as int, ls + k + 1);
                lemma_char_floor_iff(s, byte_pos as int, ls + k);
            }
            if cur + w > byte_pos {
                proof {
                    // The next character crosses the offset: exactly the
                    // characters before it fit.
                    assert(ls + k + 1 > kf);
                    assert(k as int >= kf - ls);
                    assert(k as int == col_spec);
                }
                break ;
            }
            cur = cur + w;
            k = k + 1;
            proof {
                assert(ls + k <= kf);
            }
        }
        proof {
            if k as int == clen as int {
                lemma_char_floor_iff(s, byte_pos as int, ls + k);
                assert(k as int == col_spec);
            }
        }
        Ok(Pos { line, column: k })
    }

    /// The cursor after an insertion: walks the freshly inserted run
    /// between the boundaries `b` and `end_b` and applies the line/column
    /// arithmetic of [`post_insert_pos`].
    fn post_insert_cursor(&self, pos: Pos, b: usize, end_b: usize) -> (p: Pos)
        requires
            b <= end_b,
            end_b as int <= byte_len_of(self@),
            is_boundary(self@, b as int),
            is_boundary(self@, end_b as int),
            pos.column + (char_floor(self@, end_b as int) - char_floor(self@, b as int))
                <= usize::MAX,
            pos.line + (char_floor(self@, end_b as int) - char_floor(self@, b as int))
                <= usize::MAX,
        ensures
            p == post_insert_pos(
                pos,
                self@.subrange(char_floor(self@, b as int), char_floor(self@, end_b as int)),
            ),
    {
        let ghost s = self@;
        let ghost k0 = char_floor(s, b as int);
        let ghost k1 = char_floor(s, end_b as int);
        let ghost t = s.subrange(k0, k1);
        proof {
            lemma_byte_len_bounds(s);
            lemma_char_floor_floor(s, b as int);
            lemma_char_floor_floor(s, end_b as int);
            lemma_byte_le_iff(s, k0, k1);
            assert(t.take(0) =~= Seq::<char>::empty());
            lemma_byte_len_bounds(s.take(k1));
            assert(k1 <= end_b as int);
        }
        let mut cur = b;
        let mut nls: usize = 0;
        let mut since: usize = 0;
        let ghost mut j: int = 0;
        while cur < end_b
            invariant
                0 <= j <= t.len(),
                t.len() == k1 - k0,
                cur as int == byte_len_of(s.take(k0 + j)),
                cur as int <= end_b as int,
                end_b as int == byte_len_of(s.take(k1)),
                end_b as int <= byte_len_of(s),
                nls as int == nl_count(t.take(j)),
                nls as int <= j,
                since as int == t.take(j).len() - line_start(t.take(j), nl_count(t.take(j))),
                0 <= since as int <= j,
                s == self@,
                t == s.subrange(k0, k1),
                0 <= k0 <= k1 <= s.len(),
                k1 <= end_b as int,
            decreases t.len() - j,
        {
            proof {
                lemma_char_floor_of_take(s, k0 + j);
                lemma_byte_le_iff(s, k1, k0 + j);
                assert(k0 + j < k1);
            }
            let c = match rope_char_after(&self.rope, cur) {
                Some(c) => c,
                None => {
                    proof {
                        assert(false);
                    }
                    ' '
                },
            };
            let w = char_len_utf8(c);
            proof {
                assert(c == s[k0 + j]);
                assert(c == t[j]);
                lemma_byte_len_take_succ(s, k0 + j);
                lemma_byte_le_iff(s, k0 + j + 1, k1);
                lemma_nl_count_take_succ(t, j);
                lemma_nl_count_bounds(t.take(j));
                assert(t.take(j + 1) =~= t.take(j) + seq![t[j]]);
            }
            proof {
                assert(nls as int <= j < t.len() <= k1 <= end_b as int);
                assert(since as int <= j < t.len() <= k1 <= end_b as int);
            }
            if c == '\n' {
                nls = nls + 1;
                since = 0;
                proof {
                    j = j + 1;
                    assert(ends_in_nl(t.take(j)));
                    lemma_line_start_full(t.take(j));
                }
            } else {
                since = since + 1;
                proof {
                    lemma_line_start_prefix(t.take(j), seq![t[j]], nl_count(t.take(j)));
                    j = j + 1;
                }
            }
            cur = cur + w;
        }
        proof {
            // The walk consumed exactly the inserted run.
            lemma_char_floor_of_take(s, k0 + j);
            if j < t.len() {
                lemma_byte_le_iff(s, k1, k0 + j);
            }
            assert(j == t.len());
            assert(t.take(j) =~= t);
        }
        if nls == 0 {
            Pos { line: pos.line, column: pos.column + since }
        } else {
            Pos { line: pos.line + nls, column: since }
        }
    }

    /// Applies a primitive edit, validating its positions through the
    /// coordinate mapping, and returns the log entry pairing the edit with
    /// its exact inverse, computed now, against the buffer as it was. On an
    /// out-of-bounds position, or a reversed span, the buffer is left
    /// exactly as it was.
    pub fn apply_edit(&mut self, op: EditOp) -> (r: Result<LogEntry, EditErr>)
        ensures
            match r {
                Ok(entry) => spec_apply_edit(old(self)@, op@) == Some((final(self)@, entry@)),
                Err(e) => spec_apply_edit(old(self)@, op@) is None && final(self)@ == old(self)@
                    && e == EditErr::OutOfBounds,
            },
    {
        let ghost s0 = self@;
        match op {
            EditOp::Insert { pos, text } => {
                let b = match self.get_byte(pos) {
                    Ok(b) => b,
                    Err(e) => {
                        return Err(e);
                    },
                };
                proof {
                    lemma_pos_cidx(s0, pos);
                }
                let ghost k = pos_cidx(s0, pos);
                rope_insert(&mut self.rope, b, text.as_str());
                let ghost s1 = self@;
                let ghost tv = text@;
                let total = rope_byte_len(&self.rope);
                proof {
                    lemma_byte_len_encode(tv);
                    lemma_byte_len_concat(s0.take(k) + tv, s0.skip(k));
                    lemma_byte_len_concat(s0.take(k), tv);
                    assert(s1.take(k) =~= s0.take(k));
                    lemma_char_floor_of_take(s1, k);
                    assert(s1.take(k + tv.len()) =~= s0.take(k) + tv);
                    lemma_char_floor_of_take(s1, k + tv.len());
                    assert(s1.subrange(k, k + tv.len()) =~= tv);
                    lemma_byte_len_bounds(s1);
                    lemma_byte_len_bounds(s0.skip(k));
                    assert(total as int == byte_len_of(s0.take(k)) + byte_len_of(tv)
                        + byte_len_of(s0.skip(k)));
                    assert(b as int + byte_len_of(tv) <= total as int);
                    lemma_byte_len_take_mono(s1, k + tv.len(), s1.len() as int);
                    assert(s1.take(s1.len() as int) =~= s1);
                    // Overflow bounds for the cursor arithmetic: both the
                    // line and the column of a valid position are at most
                    // the old length.
                    lemma_line_count_le_len(s0);
                    if !sim_final(s0, pos) {
                        lemma_line_content(s0, pos.line as int);
                        lemma_line_start_bounds(s0, pos.line as int + 1);
                        lemma_line_start_bounds(s0, pos.line as int);
                    }
                    assert(pos.line <= s0.len());
                    assert(pos.column <= s0.len());
                }
                let tlen = text.as_str().len();
                let end_b = b + tlen;
                let post = self.post_insert_cursor(pos, b, end_b);
                proof {
                    assert(post == post_insert_pos(pos, tv));
                }
                let entry = LogEntry {
                    edit: EditOp::Insert { pos, text },
                    undo: EditOp::Delete { start: pos, end: post },
                };
                Ok(entry)
            },
            EditOp::Delete { start, end } => {
                let b1 = match self.get_byte(start) {
                    Ok(b) => b,
                    Err(e) => {
                        return Err(e);
                    },
                };
                let b2 = match self.get_byte(end) {
                    Ok(b) => b,
                    Err(e) => {
                        return Err(e);
                    },
                };
                if b1 > b2 {
                    return Err(EditErr::OutOfBounds);
                }
                proof {
                    lemma_pos_cidx(s0, start);
                    lemma_pos_cidx(s0, end);
                }
                let deleted = rope_slice_to_string(&self.rope, b1, b2);
                rope_delete(&mut self.rope, b1, b2);
                let entry = LogEntry {
                    edit: EditOp::Delete { start, end },
                    undo: EditOp::Insert { pos: start, text: deleted },
                };
                Ok(entry)
            },
        }
    }
}

} // verus!
