//! The boundary scanner and the edit executor: high-level operations (move,
//! insert, delete, undo, redo) resolved against the coordinate mapper, with
//! an undo/redo log that pairs every committed edit with its inverse.

use vstd::prelude::*;

use crate::charclass::{char_is_newline, char_len_utf8, classify_char, run_pred_eval};
use crate::editing::{EditResult, Pos};
use crate::model::{byte_len_of, char_floor, char_scan_len, class_of, is_boundary,
    is_newline_char, lemma_byte_len_bounds, lemma_byte_len_take_mono, lemma_byte_len_take_succ,
    lemma_char_floor_bounds, lemma_char_floor_of_take, lemma_run_len_props,
    line_count, line_scan_len, pos_cidx, pos_valid, post_insert_pos, run_len,
    run_pred, spec_line_char_len, spec_pos_from_byte, word_scan_len, RunPred};
use crate::rope::{rope_byte_len, rope_char_after, rope_char_before, rope_line_len, rope_text};
use crate::span_edit::{spec_apply_edit, EditErr, EditOp, EditOpView, LogEntry, LogEntryView,
    SpanEditable};

verus! {

// ---------------------------------------------------------------------------
// Operation vocabulary
// ---------------------------------------------------------------------------

/// A caller-facing operation on an editable text field.
#[derive(Debug)]
pub enum TextOp {
    Move(MoveDir),
    InsertText(String),
    Delete { unit: Unit, dir: LeftRight },
    Redo,
    Undo,
}

/// The ghost shape of a [`TextOp`].
pub enum TextOpView {
    Move(MoveDir),
    InsertText(Seq<char>),
    Delete { unit: Unit, dir: LeftRight },
    Redo,
    Undo,
}

impl View for TextOp {
    type V = TextOpView;

    open spec fn view(&self) -> TextOpView {
        match *self {
            TextOp::Move(md) => TextOpView::Move(md),
            TextOp::InsertText(ref t) => TextOpView::InsertText(t@),
            TextOp::Delete { unit, dir } => TextOpView::Delete { unit, dir },
            TextOp::Redo => TextOpView::Redo,
            TextOp::Undo => TextOpView::Undo,
        }
    }
}

/// A cursor movement: to a horizontal boundary, or one line up or down.
#[derive(Clone, Copy, Debug, PartialEq, Eq, Structural)]
pub enum MoveDir {
    Horizontal { unit: Unit, dir: LeftRight },
    Up,
    Down,
}

/// The granularity of a horizontal movement or deletion.
#[derive(Clone, Copy, Debug, PartialEq, Eq, Structural)]
pub enum Unit {
    Char,
    Word,
    Line,
}

/// The direction of a horizontal movement or deletion.
#[derive(Clone, Copy, Debug, PartialEq, Eq, Structural)]
pub enum LeftRight {
    Left,
    Right,
}

// ---------------------------------------------------------------------------
// The undo/redo log
// ---------------------------------------------------------------------------

/// The ghost shape of the log: the committed entries and the index of the
/// next entry a redo would replay.
pub struct LogView {
    pub entries: Seq<LogEntryView>,
    pub next_index: int,
}

/// An ordered log of committed edits with a cursor into it: entries before
/// `next_index` can be undone, entries from it on can be redone.
pub struct Log {
    entries: Vec<LogEntry>,
    next_index: usize,
}

impl View for Log {
    type V = LogView;

    closed spec fn view(&self) -> LogView {
        LogView {
            entries: self.entries@.map_values(|e: LogEntry| e@),
            next_index: self.next_index as int,
        }
    }
}

/// Copies an edit operation.
fn dup_op(op: &EditOp) -> (r: EditOp)
    ensures
        r@ == op@,
{
    match op {
        EditOp::Insert { pos, text } => EditOp::Insert { pos: *pos, text: text.clone() },
        EditOp::Delete { start, end } => EditOp::Delete { start: *start, end: *end },
    }
}

impl Log {
    #[verifier::type_invariant]
    closed spec fn wf(&self) -> bool {
        self.next_index <= self.entries.len()
    }

    /// An empty log.
    pub fn new() -> (r: Self)
        ensures
            r@.entries == Seq::<LogEntryView>::empty(),
            r@.next_index == 0,
    {
        let r = Log { entries: Vec::new(), next_index: 0 };
        proof {
            assert(r@.entries =~= Seq::<LogEntryView>::empty());
        }
        r
    }

    /// Commits an entry: discards any entries a redo could have replayed (a
    /// new edit after an undo destroys the redo branch), then appends.
    pub fn push_entry(&mut self, entry: LogEntry)
        ensures
            final(self)@.entries =~= old(self)@.entries.take(old(self)@.next_index).push(
                entry@,
            ),
            final(self)@.next_index == old(self)@.next_index + 1,
    {
        proof {
            use_type_invariant(&*self);
        }
        let n = self.next_index;
        self.next_index = 0;
        let mut v: Vec<LogEntry> = Vec::new();
        core::mem::swap(&mut v, &mut self.entries);
        v.truncate(n);
        v.push(entry);
        let len = v.len();
        core::mem::swap(&mut v, &mut self.entries);
        self.next_index = len;
        proof {
            assert(final(self)@.entries =~= old(self)@.entries.take(old(self)@.next_index).push(
                entry@,
            ));
        }
    }

    /// Steps back over the latest committed entry, handing out its inverse;
    /// nothing to undo when the cursor is at the start.
    pub fn undo(&mut self) -> (r: Option<EditOp>)
        ensures
            match r {
                Option::None => old(self)@.next_index == 0 && final(self)@ == old(self)@,
                Option::Some(op) => {
                    &&& 0 < old(self)@.next_index <= old(self)@.entries.len()
                    &&& final(self)@.entries == old(self)@.entries
                    &&& final(self)@.next_index == old(self)@.next_index - 1
                    &&& op@ == old(self)@.entries[old(self)@.next_index - 1].undo
                },
            },
    {
        proof {
            use_type_invariant(&*self);
        }
        if self.next_index == 0 {
            return None;
        }
        self.next_index = self.next_index - 1;
        Some(dup_op(&self.entries[self.next_index].undo))
    }

    /// Steps forward over the next entry, handing out its edit; nothing to
    /// redo when the cursor is at the end.
    pub fn redo(&mut self) -> (r: Option<EditOp>)
        ensures
            match r {
                Option::None => old(self)@.next_index == old(self)@.entries.len() && final(self)@
                    == old(self)@,
                Option::Some(op) => {
                    &&& old(self)@.next_index < old(self)@.entries.len()
                    &&& final(self)@.entries == old(self)@.entries
                    &&& final(self)@.next_index == old(self)@.next_index + 1
                    &&& op@ == old(self)@.entries[old(self)@.next_index].edit
                },
            },
    {
        proof {
            use_type_invariant(&*self);
        }
        if self.next_index == self.entries.len() {
            return None;
        }
        let op = dup_op(&self.entries[self.next_index].edit);
        self.next_index = self.next_index + 1;
        Some(op)
    }
}

// ---------------------------------------------------------------------------
// Boundary scans
// ---------------------------------------------------------------------------

/// The characters a scan consumes from position-index `k` of `s`: read off
/// the text going right, or off the reversed prefix going left.
pub open spec fn scan_chars(s: Seq<char>, k: int, unit: Unit, dir: LeftRight) -> int {
    let t = match dir {
        LeftRight::Right => s.skip(k),
        LeftRight::Left => s.take(k).reverse(),
    };
    match unit {
        Unit::Char => char_scan_len(t),
        Unit::Word => word_scan_len(t),
        Unit::Line => line_scan_len(t),
    }
}

/// The character index a scan from `p` stops at.
pub open spec fn scan_target_cidx(s: Seq<char>, p: Pos, unit: Unit, dir: LeftRight) -> int {
    let k = pos_cidx(s, p);
    match dir {
        LeftRight::Right => k + scan_chars(s, k, unit, dir),
        LeftRight::Left => k - scan_chars(s, k, unit, dir),
    }
}

/// The position a scan from `p` stops at: the target index read back
/// through the byte-to-position mapping; nothing when `p` itself is
/// invalid.
pub open spec fn spec_saturating_offset(s: Seq<char>, p: Pos, unit: Unit, dir: LeftRight) -> Option<
    Pos,
> {
    if pos_valid(s, p) {
        Some(spec_pos_from_byte(s, byte_len_of(s.take(scan_target_cidx(s, p, unit, dir)))))
    } else {
        None
    }
}

/// Walks right from boundary `b` over the maximal run satisfying `p`.
fn run_right(span: &SpanEditable, b: usize, total: usize, p: RunPred) -> (e: usize)
    requires
        total as int == byte_len_of(span@),
        b <= total,
        is_boundary(span@, b as int),
    ensures
        ({
            let s = span@;
            let k = char_floor(s, b as int);
            let n = run_len(s.skip(k), p);
            &&& e as int == byte_len_of(s.take(k + n))
            &&& e <= total
        }),
{
    let ghost s = span@;
    let ghost k = char_floor(s, b as int);
    let ghost t = s.skip(k);
    let ghost n = run_len(t, p);
    proof {
        lemma_run_len_props(t, p);
        lemma_char_floor_bounds(s, b as int);
        lemma_char_floor_of_take(s, k);
        lemma_byte_len_bounds(s);
    }
    let mut cur = b;
    let ghost mut i: int = 0;
    loop
        invariant
            0 <= i <= n,
            n == run_len(t, p),
            t == s.skip(k),
            0 <= k,
            k + t.len() == s.len(),
            cur as int == byte_len_of(s.take(k + i)),
            total as int == byte_len_of(s),
            s == span@,
            forall|j: int| 0 <= j < n ==> run_pred(p, t[j]),
            n <= t.len(),
            n < t.len() ==> !run_pred(p, t[n]),
        ensures
            i == n,
            cur as int == byte_len_of(s.take(k + n)),
        decreases n - i,
    {
        proof {
            lemma_char_floor_of_take(s, k + i);
            lemma_byte_len_take_mono(s, k + i, s.len() as int);
            assert(s.take(s.len() as int) =~= s);
        }
        let c = match rope_char_after(span.inner(), cur) {
            Some(c) => c,
            None => {
                proof {
                    assert(k + i == s.len());
                    assert(i == t.len());
                    assert(i == n);
                }
                break ;
            },
        };
        proof {
            assert(c == s[k + i]);
            assert(c == t[i]);
        }
        if !run_pred_eval(p, c) {
            proof {
                assert(i >= n);
            }
            break ;
        }
        proof {
            if i == n {
                assert(n < t.len());
                assert(!run_pred(p, t[n]));
                assert(false);
            }
            lemma_byte_len_take_succ(s, k + i);
            lemma_byte_len_take_mono(s, k + i + 1, s.len() as int);
        }
        let w = char_len_utf8(c);
        cur = cur + w;
        proof {
            i = i + 1;
        }
    }
    proof {
        lemma_byte_len_take_mono(s, k + n, s.len() as int);
        assert(s.take(s.len() as int) =~= s);
    }
    cur
}

/// Walks left from boundary `b` over the maximal run satisfying `p` on the
/// reversed prefix.
fn run_left(span: &SpanEditable, b: usize, total: usize, p: RunPred) -> (e: usize)
    requires
        total as int == byte_len_of(span@),
        b <= total,
        is_boundary(span@, b as int),
    ensures
        ({
            let s = span@;
            let k = char_floor(s, b as int);
            let n = run_len(s.take(k).reverse(), p);
            &&& e as int == byte_len_of(s.take(k - n))
            &&& e <= b
        }),
{
    let ghost s = span@;
    let ghost k = char_floor(s, b as int);
    let ghost t = s.take(k).reverse();
    let ghost n = run_len(t, p);
    proof {
        lemma_run_len_props(t, p);
        lemma_char_floor_bounds(s, b as int);
        lemma_char_floor_of_take(s, k);
        lemma_byte_len_bounds(s);
        assert(t.len() == k);
    }
    let mut cur = b;
    let ghost mut i: int = 0;
    loop
        invariant
            0 <= i <= n,
            n == run_len(t, p),
            t == s.take(k).reverse(),
            t.len() == k,
            0 <= k <= s.len(),
            cur as int == byte_len_of(s.take(k - i)),
            cur <= b,
            b as int == byte_len_of(s.take(k)),
            total as int == byte_len_of(s),
            s == span@,
            forall|j: int| 0 <= j < n ==> run_pred(p, t[j]),
            n <= t.len(),
            n < t.len() ==> !run_pred(p, t[n]),
        ensures
            i == n,
            cur as int == byte_len_of(s.take(k - n)),
            cur <= b,
        decreases n - i,
    {
        proof {
            lemma_char_floor_of_take(s, k - i);
            lemma_byte_len_take_mono(s, k - i, s.len() as int);
            assert(s.take(s.len() as int) =~= s);
        }
        let c = match rope_char_before(span.inner(), cur) {
            Some(c) => c,
            None => {
                proof {
                    assert(k - i == 0);
                    assert(i == t.len());
                    assert(i == n);
                }
                break ;
            },
        };
        proof {
            assert(c == s[k - i - 1]);
            assert(t[i] == s.take(k)[k - 1 - i]);
            assert(c == t[i]);
        }
        if !run_pred_eval(p, c) {
            proof {
                assert(i >= n);
            }
            break ;
        }
        proof {
            if i == n {
                assert(false);
            }
            lemma_byte_len_take_succ(s, k - i - 1);
            lemma_byte_len_bounds(s.take(k - i - 1));
        }
        let w = char_len_utf8(c);
        cur = cur - w;
        proof {
            i = i + 1;
        }
    }
    cur
}

/// One character to the right of boundary `b`, staying put at the end.
fn char_right(span: &SpanEditable, b: usize, total: usize) -> (e: usize)
    requires
        total as int == byte_len_of(span@),
        b <= total,
        is_boundary(span@, b as int),
    ensures
        ({
            let s = span@;
            let k = char_floor(s, b as int);
            &&& e as int == byte_len_of(s.take(k + char_scan_len(s.skip(k))))
            &&& e <= total
        }),
{
    let ghost s = span@;
    let ghost k = char_floor(s, b as int);
    proof {
        lemma_char_floor_bounds(s, b as int);
        lemma_byte_len_bounds(s);
    }
    match rope_char_after(span.inner(), b) {
        None => {
            proof {
                assert(s.skip(k).len() == 0);
            }
            b
        },
        Some(c) => {
            proof {
                assert(s.skip(k)[0] == s[k]);
                lemma_byte_len_take_succ(s, k);
                lemma_byte_len_take_mono(s, k + 1, s.len() as int);
                assert(s.take(s.len() as int) =~= s);
            }
            b + char_len_utf8(c)
        },
    }
}

/// One character to the left of boundary `b`, staying put at the start.
fn char_left(span: &SpanEditable, b: usize, total: usize) -> (e: usize)
    requires
        total as int == byte_len_of(span@),
        b <= total,
        is_boundary(span@, b as int),
    ensures
        ({
            let s = span@;
            let k = char_floor(s, b as int);
            &&& e as int == byte_len_of(s.take(k - char_scan_len(s.take(k).reverse())))
            &&& e <= b
        }),
{
    let ghost s = span@;
    let ghost k = char_floor(s, b as int);
    proof {
        lemma_char_floor_bounds(s, b as int);
    }
    match rope_char_before(span.inner(), b) {
        None => {
            proof {
                assert(s.take(k).reverse().len() == 0);
            }
            b
        },
        Some(c) => {
            proof {
                assert(s.take(k).reverse().len() == k);
                assert(c == s[k - 1]);
                lemma_byte_len_take_succ(s, k - 1);
                lemma_byte_len_bounds(s.take(k - 1));
            }
            b - char_len_utf8(c)
        },
    }
}

/// To the nearest line boundary right of `b`: exactly one adjacent newline
/// character, or everything up to (but not including) the next one.
fn line_right(span: &SpanEditable, b: usize, total: usize) -> (e: usize)
    requires
        total as int == byte_len_of(span@),
        b <= total,
        is_boundary(span@, b as int),
    ensures
        ({
            let s = span@;
            let k = char_floor(s, b as int);
            &&& e as int == byte_len_of(s.take(k + line_scan_len(s.skip(k))))
            &&& e <= total
        }),
{
    let ghost s = span@;
    let ghost k = char_floor(s, b as int);
    proof {
        lemma_char_floor_bounds(s, b as int);
        lemma_byte_len_bounds(s);
    }
    match rope_char_after(span.inner(), b) {
        None => b,
        Some(c) => {
            proof {
                assert(s.skip(k)[0] == s[k]);
            }
            if char_is_newline(c) {
                proof {
                    lemma_byte_len_take_succ(s, k);
                    lemma_byte_len_take_mono(s, k + 1, s.len() as int);
                    assert(s.take(s.len() as int) =~= s);
                }
                b + char_len_utf8(c)
            } else {
                run_right(span, b, total, RunPred::NotNewline)
            }
        },
    }
}

/// To the nearest line boundary left of `b`.
fn line_left(span: &SpanEditable, b: usize, total: usize) -> (e: usize)
    requires
        total as int == byte_len_of(span@),
        b <= total,
        is_boundary(span@, b as int),
    ensures
        ({
            let s = span@;
            let k = char_floor(s, b as int);
            &&& e as int == byte_len_of(s.take(k - line_scan_len(s.take(k).reverse())))
            &&& e <= b
        }),
{
    let ghost s = span@;
    let ghost k = char_floor(s, b as int);
    proof {
        lemma_char_floor_bounds(s, b as int);
    }
    match rope_char_before(span.inner(), b) {
        None => {
            proof {
                assert(s.take(k).reverse().len() == 0);
            }
            b
        },
        Some(c) => {
            proof {
                assert(s.take(k).reverse().len() == k);
                assert(s.take(k).reverse()[0] == s.take(k)[k - 1]);
                assert(c == s[k - 1]);
            }
            if char_is_newline(c) {
                proof {
                    lemma_byte_len_take_succ(s, k - 1);
                    lemma_byte_len_bounds(s.take(k - 1));
                }
                b - char_len_utf8(c)
            } else {
                run_left(span, b, total, RunPred::NotNewline)
            }
        },
    }
}

/// To the nearest word boundary right of `b`: first the maximal run of
/// newlines or of horizontal whitespace, then the maximal run of the class
/// of the following character.
fn word_right(span: &SpanEditable, b: usize, total: usize) -> (e: usize)
    requires
        total as int == byte_len_of(span@),
        b <= total,
        is_boundary(span@, b as int),
    ensures
        ({
            let s = span@;
            let k = char_floor(s, b as int);
            &&& e as int == byte_len_of(s.take(k + word_scan_len(s.skip(k))))
            &&& e <= total
        }),
{
    let ghost s = span@;
    let ghost k = char_floor(s, b as int);
    let ghost t = s.skip(k);
    proof {
        lemma_char_floor_bounds(s, b as int);
        lemma_byte_len_bounds(s);
    }
    let b1 = match rope_char_after(span.inner(), b) {
        None => {
            proof {
                assert(t.len() == 0);
                assert(run_len(t, RunPred::InlineWs) == 0);
            }
            b
        },
        Some(c) => {
            proof {
                assert(t[0] == s[k]);
            }
            if char_is_newline(c) {
                run_right(span, b, total, RunPred::Newline)
            } else {
                run_right(span, b, total, RunPred::InlineWs)
            }
        },
    };
    let ghost n1 = if t.len() > 0 && is_newline_char(t[0]) {
        run_len(t, RunPred::Newline)
    } else {
        run_len(t, RunPred::InlineWs)
    };
    proof {
        assert(run_len(t, RunPred::Newline) == run_len(s.skip(k), RunPred::Newline));
        lemma_run_len_props(t, RunPred::Newline);
        lemma_run_len_props(t, RunPred::InlineWs);
        assert(b1 as int == byte_len_of(s.take(k + n1)));
        lemma_char_floor_of_take(s, k + n1);
        assert(t.skip(n1) =~= s.skip(k + n1));
    }
    let ghost t2 = s.skip(k + n1);
    match rope_char_after(span.inner(), b1) {
        None => {
            proof {
                assert(t2.len() == 0);
                assert(word_scan_len(t) == n1);
            }
            b1
        },
        Some(c2) => {
            proof {
                assert(c2 == s[k + n1]);
                assert(c2 == t2[0]);
            }
            let e = run_right(span, b1, total, RunPred::Class(classify_char(c2)));
            proof {
                assert(word_scan_len(t) == n1 + run_len(t2, RunPred::Class(class_of(t2[0]))));
            }
            e
        },
    }
}

/// To the nearest word boundary left of `b`, scanning the reversed prefix.
fn word_left(span: &SpanEditable, b: usize, total: usize) -> (e: usize)
    requires
        total as int == byte_len_of(span@),
        b <= total,
        is_boundary(span@, b as int),
    ensures
        ({
            let s = span@;
            let k = char_floor(s, b as int);
            &&& e as int == byte_len_of(s.take(k - word_scan_len(s.take(k).reverse())))
            &&& e <= b
        }),
{
    let ghost s = span@;
    let ghost k = char_floor(s, b as int);
    let ghost t = s.take(k).reverse();
    proof {
        lemma_char_floor_bounds(s, b as int);
        lemma_byte_len_bounds(s);
        assert(t.len() == k);
    }
    let b1 = match rope_char_before(span.inner(), b) {
        None => {
            proof {
                assert(t.len() == 0);
                assert(run_len(t, RunPred::InlineWs) == 0);
            }
            b
        },
        Some(c) => {
            proof {
                assert(t[0] == s.take(k)[k - 1]);
                assert(t[0] == s[k - 1]);
                assert(c == t[0]);
            }
            if char_is_newline(c) {
                run_left(span, b, total, RunPred::Newline)
            } else {
                run_left(span, b, total, RunPred::InlineWs)
            }
        },
    };
    let ghost n1 = if t.len() > 0 && is_newline_char(t[0]) {
        run_len(t, RunPred::Newline)
    } else {
        run_len(t, RunPred::InlineWs)
    };
    proof {
        lemma_run_len_props(t, RunPred::Newline);
        lemma_run_len_props(t, RunPred::InlineWs);
        assert(b1 as int == byte_len_of(s.take(k - n1)));
        lemma_char_floor_of_take(s, k - n1);
        assert(t.skip(n1) =~= s.take(k - n1).reverse());
    }
    let ghost t2 = s.take(k - n1).reverse();
    match rope_char_before(span.inner(), b1) {
        None => {
            proof {
                assert(t2.len() == 0);
                assert(word_scan_len(t) == n1);
            }
            b1
        },
        Some(c2) => {
            proof {
                assert(t2.len() == k - n1);
                assert(t2[0] == s.take(k - n1)[k - n1 - 1]);
                assert(c2 == s[k - n1 - 1]);
                assert(c2 == t2[0]);
            }
            let e = run_left(span, b1, total, RunPred::Class(classify_char(c2)));
            proof {
                assert(word_scan_len(t) == n1 + run_len(t2, RunPred::Class(class_of(t2[0]))));
            }
            e
        },
    }
}

// ---------------------------------------------------------------------------
// The edit executor
// ---------------------------------------------------------------------------

/// The cursor an edit leaves behind when replayed: past the inserted text,
/// or at the start of the removed span.
pub open spec fn spec_calc_cursor(op: EditOpView) -> Pos {
    match op {
        EditOpView::Insert { pos, text } => post_insert_pos(pos, text),
        EditOpView::Delete { start, end } => start,
    }
}

/// Where a cursor movement goes: up and down clamp the column to the new
/// line and saturate at the edges; horizontal movements scan to a
/// boundary. Nothing when an out-of-range cursor is detected.
pub open spec fn spec_move(s: Seq<char>, cursor: Pos, md: MoveDir) -> Option<Pos> {
    match md {
        MoveDir::Up => {
            if cursor.line > 0 {
                match spec_line_char_len(s, cursor.line - 1) {
                    Some(n) => Some(
                        Pos {
                            line: (cursor.line - 1) as usize,
                            column: if cursor.column <= n {
                                cursor.column
                            } else {
                                n as usize
                            },
                        },
                    ),
                    None => None,
                }
            } else {
                Some(cursor)
            }
        },
        MoveDir::Down => {
            if (cursor.line as int) < line_count(s) {
                match spec_line_char_len(s, cursor.line + 1) {
                    Some(n) => Some(
                        Pos {
                            line: (cursor.line + 1) as usize,
                            column: if cursor.column <= n {
                                cursor.column
                            } else {
                                n as usize
                            },
                        },
                    ),
                    None => None,
                }
            } else {
                Some(cursor)
            }
        },
        MoveDir::Horizontal { unit, dir } => spec_saturating_offset(s, cursor, unit, dir),
    }
}

/// The ghost state of an editable field: its text and its undo/redo log.
pub struct TextEditView {
    pub text: Seq<char>,
    pub entries: Seq<LogEntryView>,
    pub next_index: int,
}

/// The full transition an operation makes: the state afterwards, the
/// outcome flag, and the cursor handed back (none when the operation
/// aborted or had nothing to do). An aborted operation changes nothing:
/// a rejected replay leaves even the log's cursor where it was.
pub open spec fn spec_handle(v: TextEditView, cursor: Pos, op: TextOpView) -> (
    TextEditView,
    EditResult,
    Option<Pos>,
) {
    match op {
        TextOpView::Move(md) => {
            match spec_move(v.text, cursor, md) {
                Some(p) => (v, EditResult::Noop, Some(p)),
                None => (v, EditResult::Noop, None),
            }
        },
        TextOpView::InsertText(t) => {
            match spec_apply_edit(v.text, EditOpView::Insert { pos: cursor, text: t }) {
                Some((s2, entry)) => (
                    TextEditView {
                        text: s2,
                        entries: v.entries.take(v.next_index).push(entry),
                        next_index: v.next_index + 1,
                    },
                    EditResult::Dirty,
                    Some(post_insert_pos(cursor, t)),
                ),
                None => (v, EditResult::Noop, None),
            }
        },
        TextOpView::Delete { unit, dir } => {
            match spec_saturating_offset(v.text, cursor, unit, dir) {
                None => (v, EditResult::Noop, None),
                Some(other) => {
                    let start = if dir is Left {
                        other
                    } else {
                        cursor
                    };
                    let end = if dir is Left {
                        cursor
                    } else {
                        other
                    };
                    match spec_apply_edit(v.text, EditOpView::Delete { start, end }) {
                        Some((s2, entry)) => (
                            TextEditView {
                                text: s2,
                                entries: v.entries.take(v.next_index).push(entry),
                                next_index: v.next_index + 1,
                            },
                            EditResult::Dirty,
                            Some(start),
                        ),
                        None => (v, EditResult::Noop, None),
                    }
                },
            }
        },
        TextOpView::Undo => {
            if v.next_index > 0 {
                let op2 = v.entries[v.next_index - 1].undo;
                match spec_apply_edit(v.text, op2) {
                    Some((s2, _)) => (
                        TextEditView {
                            text: s2,
                            entries: v.entries,
                            next_index: v.next_index - 1,
                        },
                        EditResult::Dirty,
                        Some(spec_calc_cursor(op2)),
                    ),
                    None => (v, EditResult::Noop, None),
                }
            } else {
                (v, EditResult::Noop, None)
            }
        },
        TextOpView::Redo => {
            if v.next_index < v.entries.len() {
                let op2 = v.entries[v.next_index].edit;
                match spec_apply_edit(v.text, op2) {
                    Some((s2, _)) => (
                        TextEditView {
                            text: s2,
                            entries: v.entries,
                            next_index: v.next_index + 1,
                        },
                        EditResult::Dirty,
                        Some(spec_calc_cursor(op2)),
                    ),
                    None => (v, EditResult::Noop, None),
                }
            } else {
                (v, EditResult::Noop, None)
            }
        },
    }
}

/// An editable text field: the text span together with its undo/redo log.
pub struct TextEditable {
    inner: SpanEditable,
    log: Log,
}

impl View for TextEditable {
    type V = TextEditView;

    closed spec fn view(&self) -> TextEditView {
        TextEditView {
            text: self.inner@,
            entries: self.log@.entries,
            next_index: self.log@.next_index,
        }
    }
}

impl TextEditable {
    /// Wraps an existing buffer, with a fresh, empty log.
    pub fn from_rope(rope: crop::Rope) -> (r: Self)
        ensures
            r@.text == rope_text(rope),
            r@.entries == Seq::<LogEntryView>::empty(),
            r@.next_index == 0,
    {
        TextEditable { inner: SpanEditable::from_rope(rope), log: Log::new() }
    }

    /// Builds a field holding the given text, with a fresh, empty log.
    pub fn from_text(text: &str) -> (r: Self)
        ensures
            r@.text == text@,
            r@.entries == Seq::<LogEntryView>::empty(),
            r@.next_index == 0,
    {
        TextEditable { inner: SpanEditable::from_text(text), log: Log::new() }
    }

    /// Borrows the underlying buffer.
    pub fn inner(&self) -> (r: &crop::Rope)
        ensures
            rope_text(*r) == self@.text,
    {
        self.inner.inner()
    }

    /// The whole text as an owned string.
    pub fn to_text(&self) -> (t: String)
        ensures
            t@ == self@.text,
    {
        self.inner.to_text()
    }

    /// The number of characters a line holds, as the coordinate mapper
    /// reports it.
    pub fn get_line_char_len(&self, line: usize) -> (r: Result<usize, EditErr>)
        ensures
            match r {
                Ok(n) => spec_line_char_len(self@.text, line as int) == Some(n as int),
                Err(e) => spec_line_char_len(self@.text, line as int) is None && e
                    == EditErr::OutOfBounds,
            },
    {
        self.inner.get_line_char_len(line)
    }

    /// Resolves the other end of a scan from `cursor`, through the
    /// boundary scanner; out of bounds exactly when `cursor` is invalid.
    fn saturating_offset(&self, cursor: Pos, unit: Unit, dir: LeftRight) -> (r: Result<
        Pos,
        EditErr,
    >)
        ensures
            match r {
                Ok(p) => spec_saturating_offset(self@.text, cursor, unit, dir) == Some(p),
                Err(e) => !pos_valid(self@.text, cursor) && e == EditErr::OutOfBounds,
            },
    {
        let ghost s = self@.text;
        let b = match self.inner.get_byte(cursor) {
            Ok(b) => b,
            Err(e) => {
                return Err(e);
            },
        };
        proof {
            crate::model::lemma_pos_cidx(s, cursor);
        }
        let ghost k = pos_cidx(s, cursor);
        let total = rope_byte_len(self.inner.inner());
        let e = match unit {
            Unit::Char => match dir {
                LeftRight::Left => char_left(&self.inner, b, total),
                LeftRight::Right => char_right(&self.inner, b, total),
            },
            Unit::Word => match dir {
                LeftRight::Left => word_left(&self.inner, b, total),
                LeftRight::Right => word_right(&self.inner, b, total),
            },
            Unit::Line => match dir {
                LeftRight::Left => line_left(&self.inner, b, total),
                LeftRight::Right => line_right(&self.inner, b, total),
            },
        };
        proof {
            assert(e as int == byte_len_of(s.take(scan_target_cidx(s, cursor, unit, dir))));
        }
        match self.inner.pos_from_byte(e) {
            Ok(p) => Ok(p),
            Err(_) => {
                proof {
                    assert(false);
                }
                Err(EditErr::OutOfBounds)
            },
        }
    }

    /// Executes one operation against the field: movements only recompute
    /// the cursor, edits mutate the buffer and commit their inverse to the
    /// log, undo and redo replay logged edits. Any internal out-of-bounds
    /// result aborts the whole operation as an atomic no-op: the buffer,
    /// the log and its cursor are left exactly as they were, and no cursor
    /// is handed back.
    pub fn handle_edit_event(&mut self, cursor: Pos, op: TextOp) -> (r: (
        EditResult,
        Option<Pos>,
    ))
        ensures
            ({
                let (v2, res, np) = spec_handle(old(self)@, cursor, op@);
                &&& final(self)@ == v2
                &&& r.0 == res
                &&& r.1 == np
            }),
    {
        let ghost v0 = self@;
        match op {
            TextOp::Move(move_dir) => {
                match move_dir {
                    MoveDir::Up => {
                        if cursor.line > 0 {
                            let nl = cursor.line - 1;
                            match self.inner.get_line_char_len(nl) {
                                Err(_) => (EditResult::Noop, None),
                                Ok(n) => {
                                    let col = if cursor.column <= n {
                                        cursor.column
                                    } else {
                                        n
                                    };
                                    (EditResult::Noop, Some(Pos { line: nl, column: col }))
                                },
                            }
                        } else {
                            (EditResult::Noop, Some(cursor))
                        }
                    },
                    MoveDir::Down => {
                        let ll = rope_line_len(self.inner.inner());
                        if cursor.line < ll {
                            let nl = cursor.line + 1;
                            match self.inner.get_line_char_len(nl) {
                                Err(_) => (EditResult::Noop, None),
                                Ok(n) => {
                                    let col = if cursor.column <= n {
                                        cursor.column
                                    } else {
                                        n
                                    };
                                    (EditResult::Noop, Some(Pos { line: nl, column: col }))
                                },
                            }
                        } else {
                            (EditResult::Noop, Some(cursor))
                        }
                    },
                    MoveDir::Horizontal { unit, dir } => {
                        match self.saturating_offset(cursor, unit, dir) {
                            Err(_) => (EditResult::Noop, None),
                            Ok(p) => (EditResult::Noop, Some(p)),
                        }
                    },
                }
            },
            TextOp::InsertText(t) => {
                let edit_op = EditOp::Insert { pos: cursor, text: t };
                match self.inner.apply_edit(edit_op) {
                    Err(_) => (EditResult::Noop, None),
                    Ok(entry) => {
                        let new_pos = match &entry.undo {
                            EditOp::Delete { start: _, end } => *end,
                            EditOp::Insert { .. } => {
                                proof {
                                    assert(false);
                                }
                                cursor
                            },
                        };
                        self.log.push_entry(entry);
                        (EditResult::Dirty, Some(new_pos))
                    },
                }
            },
            TextOp::Delete { unit, dir } => {
                let other = match self.saturating_offset(cursor, unit, dir) {
                    Err(_) => {
                        return (EditResult::Noop, None);
                    },
                    Ok(p) => p,
                };
                let (start, end) = match dir {
                    LeftRight::Left => (other, cursor),
                    LeftRight::Right => (cursor, other),
                };
                let edit_op = EditOp::Delete { start, end };
                match self.inner.apply_edit(edit_op) {
                    Err(_) => (EditResult::Noop, None),
                    Ok(entry) => {
                        self.log.push_entry(entry);
                        (EditResult::Dirty, Some(start))
                    },
                }
            },
            TextOp::Undo => {
                match self.log.undo() {
                    None => (EditResult::Noop, None),
                    Some(op2) => {
                        match self.inner.apply_edit(op2) {
                            Err(_) => {
                                // Abort atomically: put the log cursor back
                                // where it was.
                                let _restored = self.log.redo();
                                proof {
                                    assert(_restored is Some);
                                }
                                (EditResult::Noop, None)
                            },
                            Ok(entry) => {
                                let new_pos = Self::replayed_cursor(&entry);
                                (EditResult::Dirty, Some(new_pos))
                            },
                        }
                    },
                }
            },
            TextOp::Redo => {
                match self.log.redo() {
                    None => (EditResult::Noop, None),
                    Some(op2) => {
                        match self.inner.apply_edit(op2) {
                            Err(_) => {
                                // Abort atomically: put the log cursor back
                                // where it was.
                                let _restored = self.log.undo();
                                proof {
                                    assert(_restored is Some);
                                }
                                (EditResult::Noop, None)
                            },
                            Ok(entry) => {
                                let new_pos = Self::replayed_cursor(&entry);
                                (EditResult::Dirty, Some(new_pos))
                            },
                        }
                    },
                }
            },
        }
    }

    /// Reads the post-replay cursor off a log entry: past an insertion (the
    /// end of its inverse's span), at the start of a deletion.
    fn replayed_cursor(entry: &LogEntry) -> (p: Pos)
        requires
            entry@.undo is Delete <==> entry@.edit is Insert,
        ensures
            entry@.edit is Insert ==> (entry@.undo matches EditOpView::Delete { start, end } && p
                == end),
            entry@.edit matches EditOpView::Delete { start, end } ==> p == start,
    {
        match &entry.edit {
            EditOp::Insert { .. } => {
                match &entry.undo {
                    EditOp::Delete { start: _, end } => *end,
                    EditOp::Insert { .. } => {
                        proof {
                            assert(false);
                        }
                        Pos { line: 0, column: 0 }
                    },
                }
            },
            EditOp::Delete { start, .. } => *start,
        }
    }
}

} // verus!
