//! Laws of the edit executor, stated and proved over its ghost transition
//! function.

use vstd::prelude::*;

use crate::editing::{EditResult, Pos};
use crate::model::{byte_len_of, canon_pos, char_scan_len, is_boundary,
    is_newline_char, lemma_byte_le_iff, lemma_byte_len_bounds, lemma_byte_len_take_mono,
    lemma_canon_depends_on_prefix, lemma_canon_of_valid, lemma_canon_shift, lemma_canon_valid,
    lemma_char_floor_of_take, lemma_clean_idx, lemma_pfb_inverse, lemma_pfb_of_valid,
    lemma_pfb_valid, lemma_pos_cidx, lemma_line_shape, lemma_line_start_nl,
    lemma_nl_count_bounds, lemma_nl_count_concat, lemma_nl_count_zero, lemma_run_len_ge,
    lemma_line_scan_len_bounds, lemma_nl_count_take_mono, lemma_pfb_byte_le,
    lemma_idx_in_line, lemma_line_content, lemma_pos_canonical,
    lemma_run_len_props, lemma_valid_not_mid_crlf, lemma_word_scan_len_bounds, line_content,
    line_count, line_scan_len,
    line_start, nl_count, pos_byte, pos_cidx, pos_valid, post_insert_pos, run_len, run_pred,
    sim_final, spec_pos_from_byte, RunPred};
use crate::span_edit::{spec_apply_edit, EditOpView, LogEntryView};
use crate::text_edit::{scan_chars, scan_target_cidx, spec_calc_cursor, spec_handle, spec_move,
    spec_saturating_offset, LeftRight, MoveDir, TextEditView, TextOpView, Unit};

verus! {

/// On a freshly constructed field there is nothing to undo: the operation
/// is a no-op that leaves the state untouched and hands back no cursor, so
/// the caller's cursor stays where it was.
pub proof fn lemma_undo_on_fresh(v: TextEditView, cursor: Pos)
    requires
        v.next_index == 0,
    ensures
        spec_handle(v, cursor, TextOpView::Undo) == (v, EditResult::Noop, Option::<Pos>::None),
{
}

/// An undo followed by a fresh committed edit discards the redo branch:
/// a redo right after them is a no-op that changes nothing and replays
/// nothing.
pub proof fn lemma_redo_after_fresh_edit(
    v: TextEditView,
    c0: Pos,
    c1: Pos,
    c2: Pos,
    op: TextOpView,
)
    requires
        0 <= v.next_index <= v.entries.len(),
        op is InsertText || op is Delete,
        spec_handle(spec_handle(v, c0, TextOpView::Undo).0, c1, op).1 == EditResult::Dirty,
    ensures
        ({
            let v1 = spec_handle(v, c0, TextOpView::Undo).0;
            let v2 = spec_handle(v1, c1, op).0;
            spec_handle(v2, c2, TextOpView::Redo) == (v2, EditResult::Noop, Option::<Pos>::None)
        }),
{
    let v1 = spec_handle(v, c0, TextOpView::Undo).0;
    let v2 = spec_handle(v1, c1, op).0;
    assert(0 <= v1.next_index <= v1.entries.len());
    assert(v2.entries.len() == v1.next_index + 1);
    assert(v2.next_index == v2.entries.len());
}

/// A character movement never leaves a valid position, and the byte
/// offset it addresses always falls between two character encodings,
/// never inside one.
pub proof fn lemma_char_move_boundary(s: Seq<char>, cursor: Pos, dir: LeftRight)
    requires
        s.len() <= usize::MAX,
    ensures
        spec_move(s, cursor, MoveDir::Horizontal { unit: Unit::Char, dir }) matches Some(p)
            ==> pos_valid(s, p) && is_boundary(s, pos_byte(s, p)),
{
    if pos_valid(s, cursor) {
        lemma_pos_cidx(s, cursor);
        let k = pos_cidx(s, cursor);
        let target = scan_target_cidx(s, cursor, Unit::Char, dir);
        assert(0 <= target <= s.len()) by {
            match dir {
                LeftRight::Right => {
                    assert(char_scan_len(s.skip(k)) <= s.len() - k);
                },
                LeftRight::Left => {
                    assert(char_scan_len(s.take(k).reverse()) <= k);
                },
            }
        }
        let b = byte_len_of(s.take(target));
        lemma_byte_len_take_mono(s, target, s.len() as int);
        assert(s.take(s.len() as int) =~= s);
        lemma_byte_len_bounds(s.take(target));
        lemma_pfb_valid(s, b);
        lemma_pos_cidx(s, spec_pos_from_byte(s, b));
    }
}

/// The canonical position of an index that does not split a `"\r\n"`
/// pair is valid and addresses that index.
proof fn lemma_canon_valid_clean(s: Seq<char>, k: int)
    requires
        0 <= k <= s.len(),
        s.len() <= usize::MAX,
        !(k > 0 && k < s.len() && s[k - 1] == '\r' && s[k] == '\n'),
    ensures
        pos_valid(s, canon_pos(s, k)),
        pos_cidx(s, canon_pos(s, k)) == k,
{
    lemma_clean_idx(s, k);
    lemma_canon_valid(s, k);
}

/// Round trip for insertion: a committed `InsertText` followed by `Undo`
/// restores the text exactly and returns the cursor to where the
/// insertion started. Excluded are a cursor at the simulated slot of a
/// text whose closing character is a newline other than `'\n'`, and
/// insertions whose seams join a `'\r'` with a `'\n'`.
pub proof fn lemma_insert_undo_round_trip(v: TextEditView, cursor: Pos, t: Seq<char>, cu: Pos)
    requires
        v.text.len() + t.len() <= usize::MAX,
        0 <= v.next_index <= v.entries.len(),
        pos_valid(v.text, cursor),
        sim_final(v.text, cursor) ==> (v.text.len() == 0 || v.text[v.text.len() - 1] == '\n'),
        !(pos_cidx(v.text, cursor) > 0 && t.len() > 0 && v.text[pos_cidx(v.text, cursor) - 1]
            == '\r' && t[0] == '\n'),
        !(t.len() > 0 && pos_cidx(v.text, cursor) < v.text.len() && t[t.len() - 1] == '\r'
            && v.text[pos_cidx(v.text, cursor)] == '\n'),
    ensures
        ({
            let (v1, r1, c1) = spec_handle(v, cursor, TextOpView::InsertText(t));
            let (v2, r2, c2) = spec_handle(v1, cu, TextOpView::Undo);
            &&& r1 == EditResult::Dirty
            &&& c1 == Some(post_insert_pos(cursor, t))
            &&& r2 == EditResult::Dirty
            &&& v2.text == v.text
            &&& c2 == Some(cursor)
            &&& v2.next_index == v.next_index
        }),
{
    let s = v.text;
    let k = pos_cidx(s, cursor);
    lemma_pos_cidx(s, cursor);
    let s1 = s.take(k) + t + s.skip(k);
    assert(s1.len() == s.len() + t.len());
    let post = post_insert_pos(cursor, t);
    // The insert succeeds and yields `s1`.
    assert(spec_apply_edit(s, EditOpView::Insert { pos: cursor, text: t }) matches Some(x) && x.0
        == s1);
    // The cursor is the canonical position of `k`, in `s` and in `s1`.
    lemma_canon_of_valid(s, cursor);
    assert(s1.take(k) =~= s.take(k));
    lemma_canon_depends_on_prefix(s, s1, k);
    assert(canon_pos(s1, k) == cursor);
    // `k` is clean in `s1`: the left seam does not form a "\r\n".
    assert(!(k > 0 && k < s1.len() && s1[k - 1] == '\r' && s1[k] == '\n')) by {
        if k > 0 && k < s1.len() && s1[k - 1] == '\r' && s1[k] == '\n' {
            assert(s1[k - 1] == s[k - 1]);
            if t.len() > 0 {
                assert(s1[k] == t[0]);
            } else {
                assert(s1[k] == s[k]);
                assert(k < s.len());
                lemma_valid_not_mid_crlf(s, cursor);
            }
        }
    }
    lemma_canon_valid_clean(s1, k);
    // The post-insert cursor is the canonical position of `k + |t|`.
    assert(s1.subrange(k, k + t.len() as int) =~= t);
    lemma_canon_shift(s1, k, k + t.len() as int);
    assert(post == canon_pos(s1, k + t.len() as int));
    // `k + |t|` is clean in `s1`: the right seam does not form a "\r\n".
    let k2 = k + t.len() as int;
    assert(!(k2 > 0 && k2 < s1.len() && s1[k2 - 1] == '\r' && s1[k2] == '\n')) by {
        if k2 > 0 && k2 < s1.len() && s1[k2 - 1] == '\r' && s1[k2] == '\n' {
            assert(s1[k2] == s[k]);
            if t.len() > 0 {
                assert(s1[k2 - 1] == t[t.len() - 1]);
            } else {
                assert(s1[k2 - 1] == s[k - 1]);
                assert(k < s.len());
                lemma_valid_not_mid_crlf(s, cursor);
            }
        }
    }
    lemma_canon_valid_clean(s1, k2);
    // The recorded inverse applies: it removes exactly the inserted span.
    lemma_byte_le_iff(s1, k, k2);
    assert(pos_byte(s1, cursor) <= pos_byte(s1, post));
    assert(spec_apply_edit(s1, EditOpView::Delete { start: cursor, end: post }) matches Some(y)
        && y.0 == s1.take(k) + s1.skip(k2));
    assert(s1.take(k) + s1.skip(k2) =~= s);
    // Log bookkeeping: the entry pushed at `v.next_index` is undone again.
    let (v1, r1, c1) = spec_handle(v, cursor, TextOpView::InsertText(t));
    assert(v1.entries.len() == v.next_index + 1);
    assert(v1.entries[v.next_index] == v1.entries.last());
    assert(v1.entries.last().undo == EditOpView::Delete { start: cursor, end: post });
}

/// Round trip for deletion: a committed `Delete` followed by `Undo`
/// restores the text exactly, and returns the cursor to the end of the
/// restored span; for a leftward deletion that end is the pre-edit
/// cursor. Excluded are texts closing in a newline other than `'\n'` and
/// deletions whose removal would join a `'\r'` with a `'\n'`.
#[verifier::rlimit(50)]
pub proof fn lemma_delete_undo_round_trip(
    v: TextEditView,
    cursor: Pos,
    unit: Unit,
    dir: LeftRight,
    cu: Pos,
)
    requires
        v.text.len() <= usize::MAX,
        0 <= v.next_index <= v.entries.len(),
        pos_valid(v.text, cursor),
        v.text.len() == 0 || !is_newline_char(v.text[v.text.len() - 1]) || v.text[v.text.len()
            - 1] == '\n',
        spec_handle(v, cursor, TextOpView::Delete { unit, dir }).1 == EditResult::Dirty,
        ({
            let s = v.text;
            let other = spec_saturating_offset(s, cursor, unit, dir)->0;
            let start = if dir is Left {
                other
            } else {
                cursor
            };
            let end = if dir is Left {
                cursor
            } else {
                other
            };
            !(pos_cidx(s, start) > 0 && pos_cidx(s, end) < s.len() && s[pos_cidx(s, start) - 1]
                == '\r' && s[pos_cidx(s, end)] == '\n')
        }),
    ensures
        ({
            let other = spec_saturating_offset(v.text, cursor, unit, dir)->0;
            let end = if dir is Left {
                cursor
            } else {
                other
            };
            let (v1, r1, c1) = spec_handle(v, cursor, TextOpView::Delete { unit, dir });
            let (v2, r2, c2) = spec_handle(v1, cu, TextOpView::Undo);
            &&& r2 == EditResult::Dirty
            &&& v2.text == v.text
            &&& c2 == Some(end)
            &&& (dir is Left ==> c2 == Some(cursor))
            &&& v2.next_index == v.next_index
        }),
{
    let s = v.text;
    let other = spec_saturating_offset(s, cursor, unit, dir)->0;
    let start = if dir is Left {
        other
    } else {
        cursor
    };
    let end = if dir is Left {
        cursor
    } else {
        other
    };
    // The success hypothesis unfolds to a successful scan and deletion.
    assert(spec_saturating_offset(s, cursor, unit, dir) is Some);
    assert(spec_apply_edit(s, EditOpView::Delete { start, end }) is Some);
    assert(pos_valid(s, start) && pos_valid(s, end));
    assert(pos_byte(s, start) <= pos_byte(s, end));
    lemma_pos_cidx(s, start);
    lemma_pos_cidx(s, end);
    let k1 = pos_cidx(s, start);
    let k2 = pos_cidx(s, end);
    lemma_byte_le_iff(s, k1, k2);
    assert(k1 <= k2);
    // Both ends are canonical positions of their indexes.
    assert(sim_final(s, start) ==> (s.len() == 0 || s[s.len() - 1] == '\n'));
    assert(sim_final(s, end) ==> (s.len() == 0 || s[s.len() - 1] == '\n'));
    lemma_canon_of_valid(s, start);
    lemma_canon_of_valid(s, end);
    let s1 = s.take(k1) + s.skip(k2);
    let deleted = s.subrange(k1, k2);
    // The restored span's start stays a valid position of the shrunk text.
    assert(s1.take(k1) =~= s.take(k1));
    assert(s1.len() == s.len() - (k2 - k1));
    lemma_canon_depends_on_prefix(s, s1, k1);
    assert(canon_pos(s1, k1) == start);
    assert(!(k1 > 0 && k1 < s1.len() && s1[k1 - 1] == '\r' && s1[k1] == '\n')) by {
        if k1 > 0 && k1 < s1.len() && s1[k1 - 1] == '\r' && s1[k1] == '\n' {
            assert(s1[k1 - 1] == s[k1 - 1]);
            assert(s1[k1] == s[k2]);
        }
    }
    lemma_canon_valid_clean(s1, k1);
    // Re-inserting the deleted text restores the prior text exactly.
    assert(spec_apply_edit(s1, EditOpView::Insert { pos: start, text: deleted }) matches Some(y)
        && y.0 == s1.take(k1) + deleted + s1.skip(k1));
    assert(s1.skip(k1) =~= s.skip(k2));
    assert(s1.take(k1) + deleted + s1.skip(k1) =~= s);
    // The replay cursor is the canonical position of the span's end.
    lemma_canon_shift(s, k1, k2);
    assert(post_insert_pos(start, deleted) == canon_pos(s, k2));
    assert(spec_calc_cursor(EditOpView::Insert { pos: start, text: deleted }) == end);
    // Log bookkeeping.
    let (v1, r1, c1) = spec_handle(v, cursor, TextOpView::Delete { unit, dir });
    assert(v1.entries.len() == v.next_index + 1);
    assert(v1.entries[v.next_index] == v1.entries.last());
    assert(v1.entries.last().undo == EditOpView::Insert { pos: start, text: deleted });
}

/// A character movement right followed by one left returns to the same
/// position, from any interior position whose next character does not
/// start a `"\r\n"` pair.
pub proof fn lemma_char_move_symmetry(s: Seq<char>, p: Pos)
    requires
        s.len() <= usize::MAX,
        pos_valid(s, p),
        pos_cidx(s, p) < s.len(),
        !(s[pos_cidx(s, p)] == '\r' && pos_cidx(s, p) + 1 < s.len() && s[pos_cidx(s, p) + 1]
            == '\n'),
    ensures
        spec_move(s, p, MoveDir::Horizontal { unit: Unit::Char, dir: LeftRight::Right })
            matches Some(p1) && spec_move(
            s,
            p1,
            MoveDir::Horizontal { unit: Unit::Char, dir: LeftRight::Left },
        ) == Some(p),
{
    lemma_pos_cidx(s, p);
    let k = pos_cidx(s, p);
    assert(!sim_final(s, p));
    let t = s.skip(k);
    assert(t.len() > 0);
    assert(char_scan_len(t) == 1);
    let target = k + 1;
    assert(scan_target_cidx(s, p, Unit::Char, LeftRight::Right) == target);
    let b1 = byte_len_of(s.take(target));
    lemma_byte_len_take_mono(s, target, s.len() as int);
    assert(s.take(s.len() as int) =~= s);
    lemma_byte_len_bounds(s.take(target));
    lemma_char_floor_of_take(s, target);
    lemma_pfb_valid(s, b1);
    lemma_clean_idx(s, target);
    lemma_pfb_inverse(s, b1);
    let p1 = spec_pos_from_byte(s, b1);
    lemma_pos_cidx(s, p1);
    assert(pos_cidx(s, p1) == target);
    let t1 = s.take(target).reverse();
    assert(t1.len() == target);
    assert(char_scan_len(t1) == 1);
    assert(scan_target_cidx(s, p1, Unit::Char, LeftRight::Left) == k);
    lemma_pfb_of_valid(s, p);
    assert(byte_len_of(s.take(k)) == pos_byte(s, p));
    assert(spec_saturating_offset(s, p1, Unit::Char, LeftRight::Left) == Some(p));
}

/// An insertion at a valid cursor always commits; at an invalid one it is
/// a no-op (both directions are read off the transition function).
pub proof fn lemma_insert_succeeds(v: TextEditView, cursor: Pos, t: Seq<char>)
    ensures
        spec_handle(v, cursor, TextOpView::InsertText(t)).1 == EditResult::Dirty <==> pos_valid(
            v.text,
            cursor,
        ),
{
}

/// Bounds of the characters any scan consumes: never negative, never past
/// the end of what lies in its direction.
proof fn lemma_scan_chars_bounds(s: Seq<char>, k: int, unit: Unit, dir: LeftRight)
    requires
        0 <= k <= s.len(),
    ensures
        0 <= scan_chars(s, k, unit, dir),
        dir is Right ==> k + scan_chars(s, k, unit, dir) <= s.len(),
        dir is Left ==> scan_chars(s, k, unit, dir) <= k,
{
    let t = match dir {
        LeftRight::Right => s.skip(k),
        LeftRight::Left => s.take(k).reverse(),
    };
    assert(dir is Left ==> t.len() == k);
    match unit {
        Unit::Char => {},
        Unit::Word => {
            lemma_word_scan_len_bounds(t);
        },
        Unit::Line => {
            lemma_line_scan_len_bounds(t);
        },
    }
}

/// A deletion from a valid cursor always commits: the scan lands on a
/// valid position, and with the two ends put in order the coordinate
/// mapping rejects neither.
#[verifier::rlimit(50)]
pub proof fn lemma_delete_succeeds(v: TextEditView, cursor: Pos, unit: Unit, dir: LeftRight)
    requires
        v.text.len() <= usize::MAX,
        pos_valid(v.text, cursor),
    ensures
        spec_handle(v, cursor, TextOpView::Delete { unit, dir }).1 == EditResult::Dirty,
{
    let s = v.text;
    lemma_pos_cidx(s, cursor);
    let k = pos_cidx(s, cursor);
    lemma_scan_chars_bounds(s, k, unit, dir);
    let target = scan_target_cidx(s, cursor, unit, dir);
    assert(0 <= target <= s.len());
    let b_t = byte_len_of(s.take(target));
    lemma_byte_len_take_mono(s, target, s.len() as int);
    assert(s.take(s.len() as int) =~= s);
    lemma_byte_len_bounds(s.take(target));
    lemma_pfb_valid(s, b_t);
    lemma_char_floor_of_take(s, target);
    let other = spec_pos_from_byte(s, b_t);
    assert(spec_saturating_offset(s, cursor, unit, dir) == Some(other));
    lemma_pos_cidx(s, other);
    match dir {
        LeftRight::Left => {
            // The scan went left: its landing byte precedes the cursor's.
            lemma_pfb_byte_le(s, b_t);
            lemma_byte_le_iff(s, target, k);
            assert(pos_byte(s, other) <= pos_byte(s, cursor));
        },
        LeftRight::Right => {
            // The scan went right: its landing position, even clamped to
            // its line's content, does not precede the cursor.
            if b_t == byte_len_of(s) {
                assert(pos_cidx(s, other) == s.len()) by {
                    crate::model::lemma_line_count_le_len(s);
                    if !(s.len() == 0 || is_newline_char(s[s.len() - 1])) {
                        crate::model::lemma_last_line_content(s);
                        crate::model::lemma_line_count_pos(s);
                        lemma_line_content(s, line_count(s) - 1);
                        crate::model::lemma_line_start_bounds(s, line_count(s) - 1);
                        assert(!sim_final(s, other));
                    } else {
                        assert(sim_final(s, other));
                    }
                }
                lemma_byte_le_iff(s, k, pos_cidx(s, other));
            } else {
                assert(target < s.len()) by {
                    if target == s.len() {
                        assert(s.take(target) =~= s);
                    }
                }
                assert(!sim_final(s, cursor)) by {
                    if sim_final(s, cursor) {
                        assert(k == s.len());
                        assert(target == s.len());
                    }
                }
                lemma_pos_canonical(s, cursor);
                let l0 = cursor.line as int;
                lemma_line_content(s, l0);
                let ls0 = line_start(s, l0);
                lemma_idx_in_line(s, target);
                let l2 = nl_count(s.take(target));
                lemma_nl_count_bounds(s.take(target));
                crate::model::lemma_line_count_le_len(s);
                lemma_line_content(s, l2);
                lemma_line_shape(s, l2);
                let ls2 = line_start(s, l2);
                let clen2 = line_content(s, l2).len() as int;
                assert(other.line == l2);
                assert(!sim_final(s, other));
                lemma_nl_count_take_mono(s, k, target);
                assert(l0 <= l2);
                assert(pos_cidx(s, other) >= k) by {
                    if l0 == l2 {
                        assert(k - ls0 <= line_content(s, l0).len());
                    } else {
                        crate::model::lemma_line_start_mono(s, l0 + 1, l2);
                        assert(ls0 + line_content(s, l0).len() <= line_start(s, l0 + 1));
                        assert(k <= ls2);
                    }
                }
                lemma_byte_le_iff(s, k, pos_cidx(s, other));
            }
            assert(pos_byte(s, cursor) <= pos_byte(s, other));
        },
    }
}

/// A line movement right followed by one left returns to the same
/// position, from the start of any real line — except one opening
/// directly with a `"\r\n"` break.
#[verifier::rlimit(50)]
pub proof fn lemma_line_move_symmetry(s: Seq<char>, p: Pos)
    requires
        s.len() <= usize::MAX,
        pos_valid(s, p),
        p.column == 0,
        (p.line as int) < line_count(s),
        !(s[line_start(s, p.line as int)] == '\r' && line_start(s, p.line as int) + 1 < s.len()
            && s[line_start(s, p.line as int) + 1] == '\n'),
    ensures
        spec_move(s, p, MoveDir::Horizontal { unit: Unit::Line, dir: LeftRight::Right })
            matches Some(p1) && spec_move(
            s,
            p1,
            MoveDir::Horizontal { unit: Unit::Line, dir: LeftRight::Left },
        ) == Some(p),
{
    let l = p.line as int;
    lemma_pos_cidx(s, p);
    assert(!sim_final(s, p));
    let k = pos_cidx(s, p);
    lemma_line_shape(s, l);
    let ls = line_start(s, l);
    let le = line_start(s, l + 1);
    let clen = line_content(s, l).len() as int;
    assert(k == ls);
    assert(k < le <= s.len());
    let t = s.skip(k);
    assert(t[0] == s[k]);
    lemma_nl_count_bounds(s);
    lemma_nl_count_bounds(s.take(k));
    let n = line_scan_len(t);
    let target = k + n;
    // The scan stays within the line's content (plus at most one newline
    // character), so the landing index is clean.
    if is_newline_char(t[0]) {
        assert(n == 1);
    } else {
        lemma_run_len_props(t, RunPred::NotNewline);
        assert(n == run_len(t, RunPred::NotNewline));
        assert(n >= 1);
        assert(target <= ls + clen) by {
            if target > ls + clen {
                assert(le - (ls + clen) != 0) by {
                    if le == ls + clen {
                        assert(le == s.len());
                        assert(n <= t.len());
                    }
                }
                let j = ls + clen - k;
                assert(0 <= j < n);
                assert(t[j] == s[ls + clen]);
                assert(is_newline_char(s[ls + clen]));
                assert(run_pred(RunPred::NotNewline, t[j]));
                assert(false);
            }
        }
    }
    assert(scan_target_cidx(s, p, Unit::Line, LeftRight::Right) == target);
    let b1 = byte_len_of(s.take(target));
    lemma_byte_len_take_mono(s, target, s.len() as int);
    assert(s.take(s.len() as int) =~= s);
    lemma_byte_len_bounds(s.take(target));
    lemma_char_floor_of_take(s, target);
    lemma_pfb_valid(s, b1);
    // Cleanliness of the landing index.
    if is_newline_char(t[0]) {
        lemma_clean_idx(s, target);
    } else {
        // Inside the content of line `l`: no newline precedes in
        // `[k, target)`, so the landing line is still `l`.
        assert(s.take(target) =~= s.take(k) + s.subrange(k, target));
        lemma_nl_count_concat(s.take(k), s.subrange(k, target));
        assert(nl_count(s.subrange(k, target)) == 0) by {
            let mid = s.subrange(k, target);
            assert forall|i: int| 0 <= i < mid.len() implies mid[i] != '\n' by {
                assert(mid[i] == t[i]);
                lemma_run_len_props(t, RunPred::NotNewline);
                assert(run_pred(RunPred::NotNewline, t[i]));
            }
            lemma_nl_count_zero(mid);
        }
        assert(nl_count(s.take(target)) == p.line);
    }
    lemma_pfb_inverse(s, b1);
    let p1 = spec_pos_from_byte(s, b1);
    lemma_pos_cidx(s, p1);
    assert(pos_cidx(s, p1) == target);
    // The leftward scan from the landing point comes straight back.
    let t1 = s.take(target).reverse();
    assert(t1.len() == target);
    assert(target >= 1);
    if is_newline_char(t[0]) {
        assert(t1[0] == s.take(target)[target - 1]);
        assert(t1[0] == s[k]);
        assert(line_scan_len(t1) == 1);
    } else {
        assert(!is_newline_char(t1[0])) by {
            assert(t1[0] == s[target - 1]);
            assert(t[target - 1 - k] == s[target - 1]);
            lemma_run_len_props(t, RunPred::NotNewline);
        }
        assert(line_scan_len(t1) == run_len(t1, RunPred::NotNewline));
        // The reversed prefix satisfies the run for exactly `n` steps.
        assert(forall|j: int|
            0 <= j < n ==> #[trigger] run_pred(RunPred::NotNewline, t1[j])) by {
            lemma_run_len_props(t, RunPred::NotNewline);
            assert forall|j: int| 0 <= j < n implies #[trigger] run_pred(
                RunPred::NotNewline,
                t1[j],
            ) by {
                assert(t1[j] == s.take(target)[target - 1 - j]);
                assert(t1[j] == s[target - 1 - j]);
                assert(t[target - 1 - j - k] == s[target - 1 - j]);
                assert(run_pred(RunPred::NotNewline, t[target - 1 - j - k]));
            }
        }
        lemma_run_len_ge(t1, RunPred::NotNewline, n);
        assert(run_len(t1, RunPred::NotNewline) == n) by {
            lemma_run_len_props(t1, RunPred::NotNewline);
            if run_len(t1, RunPred::NotNewline) > n {
                assert(n < t1.len());
                assert(t1[n] == s[target - 1 - n]);
                assert(target - n == k);
                assert(t1[n] == s[k - 1]);
                assert(l >= 1) by {
                    if l == 0 {
                        assert(line_start(s, 0) == 0);
                        assert(t1.len() == n);
                    }
                }
                lemma_line_start_nl(s, l);
                assert(s[ls - 1] == '\n');
                assert(is_newline_char(t1[n]));
                assert(run_pred(RunPred::NotNewline, t1[n]));
                assert(false);
            }
        }
    }
    assert(scan_target_cidx(s, p1, Unit::Line, LeftRight::Left) == k);
    lemma_pfb_of_valid(s, p);
    assert(byte_len_of(s.take(k)) == pos_byte(s, p));
    assert(spec_saturating_offset(s, p1, Unit::Line, LeftRight::Left) == Some(p));
}

} // verus!
