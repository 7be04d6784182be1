//! The mathematical model of the text buffer: a sequence of Unicode scalar
//! values, together with the byte-offset and line-structure functions that
//! the coordinate mapper's contracts are stated over.
//!
//! Line structure follows the packed-text buffer exactly: a line break is a
//! `'\n'` character; a final `'\n'` does not open a further line; the content
//! of a line excludes its terminating `"\n"` or `"\r\n"`.

use vstd::prelude::*;

use crate::editing::Pos;

verus! {

// ---------------------------------------------------------------------------
// UTF-8 byte lengths
// ---------------------------------------------------------------------------

/// Number of bytes of the UTF-8 encoding of `c`.
pub open spec fn utf8_len(c: char) -> int {
    if (c as u32) < 0x80 {
        1
    } else if (c as u32) < 0x800 {
        2
    } else if (c as u32) < 0x10000 {
        3
    } else {
        4
    }
}

/// Number of bytes of the UTF-8 encoding of the whole sequence.
pub open spec fn byte_len_of(s: Seq<char>) -> int
    decreases s.len(),
{
    if s.len() == 0 {
        0
    } else {
        utf8_len(s[0]) + byte_len_of(s.skip(1))
    }
}

pub proof fn lemma_byte_len_bounds(s: Seq<char>)
    ensures
        s.len() <= byte_len_of(s) <= 4 * s.len(),
    decreases s.len(),
{
    if s.len() > 0 {
        lemma_byte_len_bounds(s.skip(1));
    }
}

pub proof fn lemma_byte_len_concat(a: Seq<char>, b: Seq<char>)
    ensures
        byte_len_of(a + b) == byte_len_of(a) + byte_len_of(b),
    decreases a.len(),
{
    if a.len() == 0 {
        assert(a + b =~= b);
    } else {
        assert((a + b).skip(1) =~= a.skip(1) + b);
        lemma_byte_len_concat(a.skip(1), b);
    }
}

pub proof fn lemma_byte_len_singleton(c: char)
    ensures
        byte_len_of(seq![c]) == utf8_len(c),
{
    assert(seq![c].len() == 1);
    assert(seq![c][0] == c);
    assert(seq![c].skip(1) =~= Seq::<char>::empty());
    assert(byte_len_of(Seq::<char>::empty()) == 0);
}

/// Splitting the byte length at a character index.
pub proof fn lemma_byte_len_split(s: Seq<char>, k: int)
    requires
        0 <= k <= s.len(),
    ensures
        byte_len_of(s) == byte_len_of(s.take(k)) + byte_len_of(s.skip(k)),
{
    assert(s =~= s.take(k) + s.skip(k));
    lemma_byte_len_concat(s.take(k), s.skip(k));
}

pub proof fn lemma_byte_len_take_succ(s: Seq<char>, k: int)
    requires
        0 <= k < s.len(),
    ensures
        byte_len_of(s.take(k + 1)) == byte_len_of(s.take(k)) + utf8_len(s[k]),
{
    assert(s.take(k + 1) =~= s.take(k) + seq![s[k]]);
    lemma_byte_len_concat(s.take(k), seq![s[k]]);
    lemma_byte_len_singleton(s[k]);
}

pub proof fn lemma_byte_len_take_mono(s: Seq<char>, k1: int, k2: int)
    requires
        0 <= k1 <= k2 <= s.len(),
    ensures
        byte_len_of(s.take(k1)) + (k2 - k1) <= byte_len_of(s.take(k2)),
    decreases k2 - k1,
{
    if k1 < k2 {
        lemma_byte_len_take_mono(s, k1, k2 - 1);
        lemma_byte_len_take_succ(s, k2 - 1);
    }
}

// ---------------------------------------------------------------------------
// Byte offsets and character boundaries
// ---------------------------------------------------------------------------

/// Number of characters of `s` that lie wholly within the first `b` bytes.
pub open spec fn char_floor(s: Seq<char>, b: int) -> int
    decreases s.len(),
{
    if s.len() == 0 || b < utf8_len(s[0]) {
        0
    } else {
        1 + char_floor(s.skip(1), b - utf8_len(s[0]))
    }
}

/// A byte offset that falls exactly between two character encodings (or at
/// either end of the text).
pub open spec fn is_boundary(s: Seq<char>, b: int) -> bool {
    0 <= b && byte_len_of(s.take(char_floor(s, b))) == b
}

pub proof fn lemma_char_floor_bounds(s: Seq<char>, b: int)
    ensures
        0 <= char_floor(s, b) <= s.len(),
    decreases s.len(),
{
    if !(s.len() == 0 || b < utf8_len(s[0])) {
        lemma_char_floor_bounds(s.skip(1), b - utf8_len(s[0]));
    }
}

/// The characters counted by `char_floor` indeed fit in `b` bytes, and the
/// next character (if any) would overshoot.
pub proof fn lemma_char_floor_floor(s: Seq<char>, b: int)
    requires
        b >= 0,
    ensures
        0 <= char_floor(s, b) <= s.len(),
        byte_len_of(s.take(char_floor(s, b))) <= b,
        char_floor(s, b) < s.len() ==> b < byte_len_of(s.take(char_floor(s, b))) + utf8_len(
            s[char_floor(s, b)],
        ),
    decreases s.len(),
{
    lemma_char_floor_bounds(s, b);
    if s.len() == 0 || b < utf8_len(s[0]) {
        assert(s.take(0) =~= Seq::<char>::empty());
    } else {
        let s1 = s.skip(1);
        let b1 = b - utf8_len(s[0]);
        lemma_char_floor_floor(s1, b1);
        let k1 = char_floor(s1, b1);
        assert(s.take(1 + k1).skip(1) =~= s1.take(k1));
        if char_floor(s, b) < s.len() {
            assert(s[1 + k1] == s1[k1]);
        }
    }
}

/// The byte offset of a character prefix maps back to its character count.
pub proof fn lemma_char_floor_of_take(s: Seq<char>, k: int)
    requires
        0 <= k <= s.len(),
    ensures
        char_floor(s, byte_len_of(s.take(k))) == k,
        is_boundary(s, byte_len_of(s.take(k))),
    decreases s.len(),
{
    let b = byte_len_of(s.take(k));
    lemma_byte_len_bounds(s.take(k));
    if k == 0 {
        assert(s.take(0) =~= Seq::<char>::empty());
        if s.len() > 0 {
            assert(b == 0);
        }
    } else {
        assert(s.take(k)[0] == s[0]);
        assert(s.take(k).skip(1) =~= s.skip(1).take(k - 1));
        assert(b == utf8_len(s[0]) + byte_len_of(s.skip(1).take(k - 1)));
        lemma_byte_len_bounds(s.skip(1).take(k - 1));
        lemma_char_floor_of_take(s.skip(1), k - 1);
        assert(char_floor(s, b) == 1 + char_floor(s.skip(1), b - utf8_len(s[0])));
        assert(s.take(k) =~= seq![s[0]] + s.skip(1).take(k - 1));
    }
}

// ---------------------------------------------------------------------------
// Line structure
// ---------------------------------------------------------------------------

/// Number of `'\n'` characters in `s`.
pub open spec fn nl_count(s: Seq<char>) -> int
    decreases s.len(),
{
    if s.len() == 0 {
        0
    } else {
        (if s[0] == '\n' {
            1int
        } else {
            0int
        }) + nl_count(s.skip(1))
    }
}

pub open spec fn ends_in_nl(s: Seq<char>) -> bool {
    s.len() > 0 && s[s.len() - 1] == '\n'
}

/// Number of lines of the buffer; a final `'\n'` does not open a further
/// line, and the empty buffer has no lines.
pub open spec fn line_count(s: Seq<char>) -> int {
    if s.len() == 0 {
        0
    } else if ends_in_nl(s) {
        nl_count(s)
    } else {
        nl_count(s) + 1
    }
}

pub proof fn lemma_nl_count_bounds(s: Seq<char>)
    ensures
        0 <= nl_count(s) <= s.len(),
    decreases s.len(),
{
    if s.len() > 0 {
        lemma_nl_count_bounds(s.skip(1));
    }
}

pub proof fn lemma_nl_count_concat(a: Seq<char>, b: Seq<char>)
    ensures
        nl_count(a + b) == nl_count(a) + nl_count(b),
    decreases a.len(),
{
    if a.len() == 0 {
        assert(a + b =~= b);
    } else {
        assert((a + b).skip(1) =~= a.skip(1) + b);
        lemma_nl_count_concat(a.skip(1), b);
    }
}

pub proof fn lemma_nl_count_take_succ(s: Seq<char>, k: int)
    requires
        0 <= k < s.len(),
    ensures
        nl_count(s.take(k + 1)) == nl_count(s.take(k)) + (if s[k] == '\n' {
            1int
        } else {
            0int
        }),
{
    assert(s.take(k + 1) =~= s.take(k) + seq![s[k]]);
    lemma_nl_count_concat(s.take(k), seq![s[k]]);
    lemma_nl_count_singleton(s[k]);
}

pub proof fn lemma_nl_count_singleton(c: char)
    ensures
        nl_count(seq![c]) == if c == '\n' {
            1int
        } else {
            0int
        },
{
    assert(seq![c].len() == 1);
    assert(seq![c][0] == c);
    assert(seq![c].skip(1) =~= Seq::<char>::empty());
    assert(nl_count(Seq::<char>::empty()) == 0);
}

/// A text never has more lines than characters.
pub proof fn lemma_line_count_le_len(s: Seq<char>)
    ensures
        0 <= line_count(s) <= s.len(),
{
    lemma_nl_count_bounds(s);
    if s.len() > 0 && !ends_in_nl(s) {
        assert(s.take(s.len() as int) =~= s);
        lemma_nl_count_take_succ(s, s.len() - 1);
        lemma_nl_count_bounds(s.take(s.len() - 1));
    }
}

/// Character index of the start of (raw) line `l`: the index just after the
/// `l`-th `'\n'`, or the end of the text where fewer newlines exist.
pub open spec fn line_start(s: Seq<char>, l: int) -> int
    decreases s.len(),
{
    if l <= 0 || s.len() == 0 {
        0
    } else if s[0] == '\n' {
        1 + line_start(s.skip(1), l - 1)
    } else {
        1 + line_start(s.skip(1), l)
    }
}

pub proof fn lemma_line_start_bounds(s: Seq<char>, l: int)
    ensures
        0 <= line_start(s, l) <= s.len(),
    decreases s.len(),
{
    if !(l <= 0 || s.len() == 0) {
        if s[0] == '\n' {
            lemma_line_start_bounds(s.skip(1), l - 1);
        } else {
            lemma_line_start_bounds(s.skip(1), l);
        }
    }
}

pub proof fn lemma_line_start_mono(s: Seq<char>, l1: int, l2: int)
    requires
        l1 <= l2,
    ensures
        line_start(s, l1) <= line_start(s, l2),
    decreases s.len(),
{
    if !(l2 <= 0 || s.len() == 0) {
        if l1 <= 0 {
            lemma_line_start_bounds(s, l2);
            lemma_line_start_bounds(s.skip(1), l2 - 1);
            lemma_line_start_bounds(s.skip(1), l2);
        } else if s[0] == '\n' {
            lemma_line_start_mono(s.skip(1), l1 - 1, l2 - 1);
        } else {
            lemma_line_start_mono(s.skip(1), l1, l2);
        }
    }
}

/// The prefix ending at `line_start(s, l)` holds exactly `min(l, nl_count)`
/// newlines, and a started line begins right after a newline.
pub proof fn lemma_line_start_nl(s: Seq<char>, l: int)
    requires
        l >= 0,
    ensures
        l <= nl_count(s) ==> nl_count(s.take(line_start(s, l))) == l,
        l > nl_count(s) ==> line_start(s, l) == s.len(),
        1 <= l <= nl_count(s) ==> line_start(s, l) >= 1 && s[line_start(s, l) - 1] == '\n',
    decreases s.len(),
{
    lemma_nl_count_bounds(s);
    if l == 0 {
        assert(s.take(0) =~= Seq::<char>::empty());
    } else if s.len() == 0 {
    } else {
        let s1 = s.skip(1);
        let l1 = if s[0] == '\n' {
            l - 1
        } else {
            l
        };
        lemma_line_start_nl(s1, l1);
        lemma_line_start_bounds(s1, l1);
        let ls1 = line_start(s1, l1);
        assert(line_start(s, l) == 1 + ls1);
        assert(s.take(1 + ls1) =~= seq![s[0]] + s1.take(ls1));
        lemma_nl_count_concat(seq![s[0]], s1.take(ls1));
        lemma_nl_count_singleton(s[0]);
        if 1 <= l <= nl_count(s) {
            if l1 >= 1 {
                assert(s[1 + ls1 - 1] == s1[ls1 - 1]);
            }
        }
    }
}

/// Between `line_start(s, l)` and `line_start(s, l + 1)` the only possible
/// newline is the final character of that range.
pub proof fn lemma_no_nl_inside_line(s: Seq<char>, l: int, i: int)
    requires
        l >= 0,
        line_start(s, l) <= i,
        i + 1 < line_start(s, l + 1),
        i < s.len(),
    ensures
        s[i] != '\n',
    decreases s.len(),
{
    if s.len() == 0 {
    } else if l == 0 {
        if s[0] == '\n' {
            assert(line_start(s.skip(1), 0) == 0);
            assert(line_start(s, 1) == 1);
        } else {
            if i >= 1 {
                assert(line_start(s, 1) == 1 + line_start(s.skip(1), 1));
                lemma_no_nl_inside_line(s.skip(1), 0, i - 1);
                assert(s[i] == s.skip(1)[i - 1]);
            } else {
                assert(s[0] != '\n');
            }
        }
    } else {
        let s1 = s.skip(1);
        let l1 = if s[0] == '\n' {
            l - 1
        } else {
            l
        };
        lemma_line_start_bounds(s1, l1);
        lemma_no_nl_inside_line(s1, l1, i - 1);
        assert(line_start(s, l) == 1 + line_start(s1, l1));
        assert(line_start(s, l + 1) == 1 + line_start(s1, l1 + 1));
        assert(i - 1 >= line_start(s1, l1) >= 0);
        assert(s[i] == s1[i - 1]);
    }
}

/// The raw text of line `l`, including its terminator if it has one.
pub open spec fn raw_line(s: Seq<char>, l: int) -> Seq<char> {
    s.subrange(line_start(s, l), line_start(s, l + 1))
}

/// A trailing `"\n"` or `"\r\n"` removed.
pub open spec fn strip_break(t: Seq<char>) -> Seq<char> {
    if t.len() > 0 && t[t.len() - 1] == '\n' {
        let t2 = t.take(t.len() - 1);
        if t2.len() > 0 && t2[t2.len() - 1] == '\r' {
            t2.take(t2.len() - 1)
        } else {
            t2
        }
    } else {
        t
    }
}

/// The content of line `l`: its raw text without the line terminator.
pub open spec fn line_content(s: Seq<char>, l: int) -> Seq<char> {
    strip_break(raw_line(s, l))
}

pub proof fn lemma_nl_count_zero(t: Seq<char>)
    requires
        forall|i: int| 0 <= i < t.len() ==> t[i] != '\n',
    ensures
        nl_count(t) == 0,
    decreases t.len(),
{
    if t.len() > 0 {
        lemma_nl_count_zero(t.skip(1));
    }
}

/// `char_floor` is the largest character count whose encoding fits in `b`
/// bytes.
pub proof fn lemma_char_floor_iff(s: Seq<char>, b: int, j: int)
    requires
        b >= 0,
        0 <= j <= s.len(),
    ensures
        byte_len_of(s.take(j)) <= b <==> j <= char_floor(s, b),
{
    lemma_char_floor_floor(s, b);
    let k = char_floor(s, b);
    if j <= k {
        lemma_byte_len_take_mono(s, j, k);
    } else {
        lemma_byte_len_take_mono(s, k + 1, j);
        lemma_byte_len_take_succ(s, k);
    }
}

/// A nonempty text has at least one line.
pub proof fn lemma_line_count_pos(s: Seq<char>)
    requires
        s.len() > 0,
    ensures
        line_count(s) >= 1,
{
    if ends_in_nl(s) {
        assert(s.take(s.len() as int) =~= s);
        lemma_nl_count_take_succ(s, s.len() - 1);
        lemma_nl_count_bounds(s.take(s.len() - 1));
    } else {
        lemma_nl_count_bounds(s);
    }
}

/// Line starts within a prefix do not move when text is appended.
pub proof fn lemma_line_start_prefix(u: Seq<char>, v: Seq<char>, l: int)
    requires
        0 <= l <= nl_count(u),
    ensures
        line_start(u + v, l) == line_start(u, l),
    decreases u.len(),
{
    lemma_nl_count_bounds(u);
    if l == 0 {
    } else {
        let w = u + v;
        assert(u.len() > 0);
        assert(w[0] == u[0]);
        assert(w.skip(1) =~= u.skip(1) + v);
        if u[0] == '\n' {
            lemma_line_start_prefix(u.skip(1), v, l - 1);
        } else {
            lemma_line_start_prefix(u.skip(1), v, l);
        }
    }
}

/// In a text that ends with a newline, the line one past the last break
/// starts at the very end.
pub proof fn lemma_line_start_full(w: Seq<char>)
    requires
        ends_in_nl(w),
    ensures
        line_start(w, nl_count(w)) == w.len(),
    decreases w.len(),
{
    lemma_line_count_pos(w);
    let w1 = w.skip(1);
    if w.len() == 1 {
        assert(w[0] == '\n');
        assert(w1 =~= Seq::<char>::empty());
        assert(nl_count(w1) == 0);
        assert(nl_count(w) == 1);
        assert(line_start(w1, 0) == 0);
        assert(line_start(w, 1) == 1);
    } else {
        assert(w1.len() > 0);
        assert(w1[w1.len() - 1] == w[w.len() - 1]);
        lemma_line_start_full(w1);
        if w[0] == '\n' {
            assert(nl_count(w) == 1 + nl_count(w1));
        } else {
            assert(nl_count(w) == nl_count(w1));
            assert(nl_count(w) >= 1) by {
                assert(w.take(w.len() as int) =~= w);
                lemma_nl_count_take_succ(w, w.len() - 1);
                lemma_nl_count_bounds(w.take(w.len() - 1));
            }
        }
    }
}

/// The content of a line is the prefix of the text starting at the line
/// start, and it holds no newline.
pub proof fn lemma_line_content(s: Seq<char>, l: int)
    requires
        0 <= l,
    ensures
        line_content(s, l) =~= s.subrange(
            line_start(s, l),
            line_start(s, l) + line_content(s, l).len(),
        ),
        line_start(s, l) + line_content(s, l).len() <= line_start(s, l + 1),
        forall|i: int|
            0 <= i < line_content(s, l).len() ==> #[trigger] line_content(s, l)[i] != '\n',
{
    let ls = line_start(s, l);
    let le = line_start(s, l + 1);
    lemma_line_start_bounds(s, l);
    lemma_line_start_bounds(s, l + 1);
    lemma_line_start_mono(s, l, l + 1);
    let raw = raw_line(s, l);
    let c = line_content(s, l);
    assert(raw.len() == le - ls);
    // `strip_break` keeps a prefix of the raw line.
    assert(c =~= raw.take(c.len() as int));
    assert(c =~= s.subrange(ls, ls + c.len()));
    // No interior character of the raw line is a newline.
    assert forall|i: int| 0 <= i < c.len() implies #[trigger] c[i] != '\n' by {
        if ls + i + 1 < le {
            lemma_no_nl_inside_line(s, l, ls + i);
        } else {
            // Then `c[i]` is the final character of the raw line, which a
            // non-stripped line cannot end with.
            assert(i == raw.len() - 1 && c.len() == raw.len());
            assert(c[i] == raw[raw.len() - 1]);
        }
    }
}

/// The exact shape of a line: its content, followed by a terminator that is
/// `"\n"`, `"\r\n"`, or absent (only on the last line of an unterminated
/// text); and a content that never ends in `'\r'` right before a lone-`'\n'`
/// terminator.
pub proof fn lemma_line_shape(s: Seq<char>, l: int)
    requires
        0 <= l < line_count(s),
    ensures
        ({
            let ls = line_start(s, l);
            let le = line_start(s, l + 1);
            let clen = line_content(s, l).len() as int;
            &&& 0 <= ls <= ls + clen <= le <= s.len()
            &&& ls < le
            &&& le - (ls + clen) <= 2
            &&& l <= nl_count(s)
            &&& nl_count(s.take(ls)) == l
            &&& (le - (ls + clen) == 1 ==> s[ls + clen] == '\n')
            &&& (le - (ls + clen) == 2 ==> s[ls + clen] == '\r' && s[ls + clen + 1] == '\n')
            &&& (le - (ls + clen) == 0 ==> le == s.len() && !ends_in_nl(s) && l == line_count(s)
                - 1)
            &&& (clen > 0 && le - (ls + clen) == 1 ==> s[ls + clen - 1] != '\r')
            &&& (forall|i: int| ls <= i < ls + clen ==> s[i] != '\n')
        }),
{
    let ls = line_start(s, l);
    let le = line_start(s, l + 1);
    let c = line_content(s, l);
    let clen = c.len() as int;
    let raw = raw_line(s, l);
    lemma_line_start_bounds(s, l);
    lemma_line_start_bounds(s, l + 1);
    lemma_line_start_mono(s, l, l + 1);
    lemma_nl_count_bounds(s);
    lemma_line_content(s, l);
    lemma_line_start_nl(s, l);
    lemma_line_start_nl(s, l + 1);
    assert(l <= nl_count(s));
    // The raw line is never empty.
    assert(ls < le) by {
        if l + 1 <= nl_count(s) {
            if ls == le {
                assert(nl_count(s.take(ls)) == l);
                assert(nl_count(s.take(le)) == l + 1);
            }
        } else {
            assert(le == s.len());
            if ls == s.len() {
                if nl_count(s) == 0 {
                    assert(s.take(0) =~= Seq::<char>::empty());
                    assert(line_start(s, l) == 0 || l > nl_count(s));
                    lemma_line_count_pos(s);
                    assert(s.len() == 0);
                } else {
                    assert(s[ls - 1] == '\n');
                    assert(ends_in_nl(s));
                    assert(line_count(s) == nl_count(s));
                }
            }
        }
    }
    assert(raw.len() == le - ls);
    assert forall|i: int| ls <= i < ls + clen implies s[i] != '\n' by {
        assert(line_content(s, l)[i - ls] != '\n');
        assert(line_content(s, l)[i - ls] == s[i]);
    }
    if raw[raw.len() - 1] == '\n' {
        let t2 = raw.take(raw.len() - 1);
        if t2.len() > 0 && t2[t2.len() - 1] == '\r' {
            assert(c == t2.take(t2.len() - 1));
            assert(clen == raw.len() - 2);
            assert(s[ls + clen] == raw[clen]);
            assert(s[ls + clen + 1] == raw[clen + 1]);
        } else {
            assert(c == t2);
            assert(clen == raw.len() - 1);
            assert(s[ls + clen] == raw[clen]);
            if clen > 0 {
                assert(s[ls + clen - 1] == t2[t2.len() - 1]);
            }
        }
    } else {
        assert(c == raw);
        assert(le - (ls + clen) == 0);
        assert(s[le - 1] == raw[raw.len() - 1]);
        if l + 1 <= nl_count(s) {
            assert(le >= 1 && s[le - 1] == '\n');
        }
        assert(l + 1 > nl_count(s));
        assert(le == s.len());
        assert(!ends_in_nl(s));
        assert(l == line_count(s) - 1);
    }
}

// ---------------------------------------------------------------------------
// Character classification
// ---------------------------------------------------------------------------

/// The newline class used by the boundary scanner and by the simulated
/// final newline test (broader than the buffer's own `'\n'` line break).
pub open spec fn is_newline_char(c: char) -> bool {
    c == '\n' || c == '\r' || c == '\u{000B}' || c == '\u{000C}' || c == '\u{0085}' || c
        == '\u{2028}' || c == '\u{2029}'
}

/// Horizontal whitespace: a space or a tab.
pub open spec fn is_inline_ws_char(c: char) -> bool {
    c == ' ' || c == '\t'
}

/// Whether `c` is alphanumeric in the Unicode sense; the exact set is the
/// standard library's, named here and fixed by the classification wrapper.
pub uninterp spec fn is_alnum_char(c: char) -> bool;

/// Whether `c` has the Unicode `White_Space` property; the exact set is the
/// standard library's, named here and fixed by the classification wrapper.
pub uninterp spec fn is_unicode_ws_char(c: char) -> bool;

/// The classes the word scanner distinguishes, in its testing order:
/// alphanumeric first, then the newline class, then other whitespace.
#[derive(Clone, Copy, Debug, PartialEq, Eq, Structural)]
pub enum CharClass {
    Alphanumeric,
    Whitespace,
    Newline,
    Other,
}

pub open spec fn class_of(c: char) -> CharClass {
    if is_alnum_char(c) {
        CharClass::Alphanumeric
    } else if is_newline_char(c) {
        CharClass::Newline
    } else if is_unicode_ws_char(c) {
        CharClass::Whitespace
    } else {
        CharClass::Other
    }
}

/// The predicates a scanner run can be maximal for.
#[derive(Clone, Copy, Debug, PartialEq, Eq, Structural)]
pub enum RunPred {
    Newline,
    InlineWs,
    NotNewline,
    Class(CharClass),
}

pub open spec fn run_pred(p: RunPred, c: char) -> bool {
    match p {
        RunPred::Newline => is_newline_char(c),
        RunPred::InlineWs => is_inline_ws_char(c),
        RunPred::NotNewline => !is_newline_char(c),
        RunPred::Class(cl) => class_of(c) == cl,
    }
}

/// Length of the maximal run of characters satisfying `p` at the front of
/// `t`.
pub open spec fn run_len(t: Seq<char>, p: RunPred) -> int
    decreases t.len(),
{
    if t.len() == 0 || !run_pred(p, t[0]) {
        0
    } else {
        1 + run_len(t.skip(1), p)
    }
}

pub proof fn lemma_run_len_props(t: Seq<char>, p: RunPred)
    ensures
        0 <= run_len(t, p) <= t.len(),
        forall|i: int| 0 <= i < run_len(t, p) ==> run_pred(p, t[i]),
        run_len(t, p) < t.len() ==> !run_pred(p, t[run_len(t, p)]),
    decreases t.len(),
{
    if t.len() > 0 && run_pred(p, t[0]) {
        lemma_run_len_props(t.skip(1), p);
        assert forall|i: int| 0 <= i < run_len(t, p) implies run_pred(p, t[i]) by {
            if i > 0 {
                assert(t.skip(1)[i - 1] == t[i]);
            }
        }
        if run_len(t, p) < t.len() {
            assert(t.skip(1)[run_len(t, p) - 1] == t[run_len(t, p)]);
        }
    }
}

/// A run is at least as long as any all-satisfying prefix.
pub proof fn lemma_run_len_ge(t: Seq<char>, p: RunPred, m: int)
    requires
        0 <= m <= t.len(),
        forall|i: int| 0 <= i < m ==> run_pred(p, t[i]),
    ensures
        run_len(t, p) >= m,
    decreases t.len(),
{
    lemma_run_len_props(t, p);
    if m > 0 {
        assert(run_pred(p, t[0]));
        assert forall|i: int| 0 <= i < m - 1 implies run_pred(p, t.skip(1)[i]) by {
            assert(run_pred(p, t[i + 1]));
            assert(t.skip(1)[i] == t[i + 1]);
        }
        lemma_run_len_ge(t.skip(1), p, m - 1);
        assert(run_len(t, p) == 1 + run_len(t.skip(1), p));
    }
}

/// Characters a word-boundary scan consumes from the front of `t`: first
/// the maximal run of newline characters (if the first character is one)
/// or of horizontal whitespace (possibly empty), then the maximal run of
/// the class of the following character.
pub open spec fn word_scan_len(t: Seq<char>) -> int {
    let n1 = if t.len() > 0 && is_newline_char(t[0]) {
        run_len(t, RunPred::Newline)
    } else {
        run_len(t, RunPred::InlineWs)
    };
    let t2 = t.skip(n1);
    n1 + if t2.len() == 0 {
        0int
    } else {
        run_len(t2, RunPred::Class(class_of(t2[0])))
    }
}

pub proof fn lemma_word_scan_len_bounds(t: Seq<char>)
    ensures
        0 <= word_scan_len(t) <= t.len(),
{
    lemma_run_len_props(t, RunPred::Newline);
    lemma_run_len_props(t, RunPred::InlineWs);
    let n1 = if t.len() > 0 && is_newline_char(t[0]) {
        run_len(t, RunPred::Newline)
    } else {
        run_len(t, RunPred::InlineWs)
    };
    let t2 = t.skip(n1);
    if t2.len() > 0 {
        lemma_run_len_props(t2, RunPred::Class(class_of(t2[0])));
    }
}

/// Characters a line-boundary scan consumes: exactly one newline character
/// if one is adjacent, else everything up to the next newline character.
pub open spec fn line_scan_len(t: Seq<char>) -> int {
    if t.len() == 0 {
        0
    } else if is_newline_char(t[0]) {
        1
    } else {
        run_len(t, RunPred::NotNewline)
    }
}

pub proof fn lemma_line_scan_len_bounds(t: Seq<char>)
    ensures
        0 <= line_scan_len(t) <= t.len(),
{
    lemma_run_len_props(t, RunPred::NotNewline);
}

/// Characters a single-character scan consumes: one, if any remain.
pub open spec fn char_scan_len(t: Seq<char>) -> int {
    if t.len() == 0 {
        0
    } else {
        1
    }
}

// ---------------------------------------------------------------------------
// Positions
// ---------------------------------------------------------------------------

/// The cursor slot one line past the last real line, valid only when the
/// text is empty or its last character closes a line.
pub open spec fn sim_final(s: Seq<char>, p: Pos) -> bool {
    &&& p.line == line_count(s)
    &&& p.column == 0
    &&& (s.len() == 0 || is_newline_char(s[s.len() - 1]))
}

/// The position invariant: either a real line-and-column address, or the
/// simulated final newline slot.
pub open spec fn pos_valid(s: Seq<char>, p: Pos) -> bool {
    ||| sim_final(s, p)
    ||| (p.line < line_count(s) && p.column <= line_content(s, p.line as int).len())
}

/// The character index a valid position addresses.
pub open spec fn pos_cidx(s: Seq<char>, p: Pos) -> int {
    if sim_final(s, p) {
        s.len() as int
    } else {
        line_start(s, p.line as int) + p.column
    }
}

/// The byte offset a valid position addresses.
pub open spec fn pos_byte(s: Seq<char>, p: Pos) -> int {
    byte_len_of(s.take(pos_cidx(s, p)))
}

/// Every index of the text lies on the line whose newlines precede it.
pub proof fn lemma_idx_in_line(s: Seq<char>, i: int)
    requires
        0 <= i < s.len(),
    ensures
        ({
            let l = nl_count(s.take(i));
            &&& 0 <= l < line_count(s)
            &&& l <= nl_count(s)
            &&& line_start(s, l) <= i < line_start(s, l + 1)
        }),
    decreases s.len(),
{
    lemma_nl_count_bounds(s.take(i));
    lemma_nl_count_bounds(s);
    let l = nl_count(s.take(i));
    if i == 0 {
        assert(s.take(0) =~= Seq::<char>::empty());
        assert(l == 0);
        assert(line_start(s, 0) == 0);
        assert(line_start(s, 1) >= 1) by {
            if s[0] == '\n' {
                lemma_line_start_bounds(s.skip(1), 0);
            } else {
                lemma_line_start_bounds(s.skip(1), 1);
            }
        }
        assert(line_count(s) >= 1) by {
            if ends_in_nl(s) {
                assert(s.take(s.len() as int) =~= s);
                lemma_nl_count_take_succ(s, s.len() - 1);
                lemma_nl_count_bounds(s.take(s.len() - 1));
            }
        }
    } else {
        let s1 = s.skip(1);
        lemma_idx_in_line(s1, i - 1);
        let l1 = nl_count(s1.take(i - 1));
        assert(s.take(i) =~= seq![s[0]] + s1.take(i - 1));
        lemma_nl_count_concat(seq![s[0]], s1.take(i - 1));
        lemma_nl_count_singleton(s[0]);
        if s[0] == '\n' {
            assert(l == 1 + l1);
        } else {
            assert(l == l1);
        }
        // line starts in `s` shift those of `s1` by one.
        assert(line_start(s, l) <= i) by {
            if s[0] == '\n' {
                assert(line_start(s, l) == 1 + line_start(s1, l - 1));
            } else {
                if l == 0 {
                } else {
                    assert(line_start(s, l) == 1 + line_start(s1, l));
                }
            }
        }
        assert(i < line_start(s, l + 1)) by {
            if s[0] == '\n' {
                assert(line_start(s, l + 1) == 1 + line_start(s1, l));
            } else {
                assert(line_start(s, l + 1) == 1 + line_start(s1, l + 1));
            }
        }
        assert(l < line_count(s)) by {
            assert(s1.len() > 0);
            assert(s[s.len() - 1] == s1[s1.len() - 1]);
            assert(nl_count(s) == (if s[0] == '\n' {
                1int
            } else {
                0int
            }) + nl_count(s1));
        }
    }
}

/// A valid position that is not the simulated slot is canonical: its line is
/// the newline count of its prefix and its byte offset sits at its index.
pub proof fn lemma_pos_canonical(s: Seq<char>, p: Pos)
    requires
        pos_valid(s, p),
        !sim_final(s, p),
    ensures
        ({
            let k = pos_cidx(s, p);
            &&& 0 <= k <= s.len()
            &&& nl_count(s.take(k)) == p.line
            &&& char_floor(s, pos_byte(s, p)) == k
            &&& is_boundary(s, pos_byte(s, p))
            &&& line_start(s, p.line as int) <= k
        }),
{
    let l = p.line as int;
    let ls = line_start(s, l);
    let k = pos_cidx(s, p);
    lemma_line_start_bounds(s, l);
    lemma_line_content(s, l);
    lemma_line_start_bounds(s, l + 1);
    assert(l < line_count(s));
    assert(l <= nl_count(s)) by {
        lemma_nl_count_bounds(s);
    }
    lemma_line_start_nl(s, l);
    assert(nl_count(s.take(ls)) == l);
    assert(k <= ls + line_content(s, l).len() <= s.len());
    assert(s.take(k) =~= s.take(ls) + s.subrange(ls, k));
    lemma_nl_count_concat(s.take(ls), s.subrange(ls, k));
    assert(nl_count(s.subrange(ls, k)) == 0) by {
        let mid = s.subrange(ls, k);
        assert forall|i: int| 0 <= i < mid.len() implies mid[i] != '\n' by {
            assert(mid[i] == line_content(s, l)[i]);
        }
        lemma_nl_count_zero(mid);
    }
    lemma_char_floor_of_take(s, k);
}

/// `byte_len_of` agrees with the length of the UTF-8 encoding.
pub proof fn lemma_byte_len_encode(t: Seq<char>)
    ensures
        byte_len_of(t) == vstd::utf8::encode_utf8(t).len(),
    decreases t.len(),
{
    if t.len() > 0 {
        vstd::utf8::char_is_scalar(t[0]);
        assert(t.drop_first() =~= t.skip(1));
        lemma_byte_len_encode(t.skip(1));
    }
}

/// Character prefixes order their byte offsets, and conversely.
pub proof fn lemma_byte_le_iff(s: Seq<char>, k1: int, k2: int)
    requires
        0 <= k1 <= s.len(),
        0 <= k2 <= s.len(),
    ensures
        byte_len_of(s.take(k1)) <= byte_len_of(s.take(k2)) <==> k1 <= k2,
{
    if k1 <= k2 {
        lemma_byte_len_take_mono(s, k1, k2);
    } else {
        lemma_byte_len_take_mono(s, k2, k1);
    }
}

/// The character index and byte offset of any valid position are in range,
/// and the byte offset is a boundary sitting exactly at the index.
pub proof fn lemma_pos_cidx(s: Seq<char>, p: Pos)
    requires
        pos_valid(s, p),
    ensures
        0 <= pos_cidx(s, p) <= s.len(),
        char_floor(s, pos_byte(s, p)) == pos_cidx(s, p),
        is_boundary(s, pos_byte(s, p)),
        0 <= pos_byte(s, p) <= byte_len_of(s),
{
    if sim_final(s, p) {
        assert(s.take(s.len() as int) =~= s);
        lemma_char_floor_of_take(s, s.len() as int);
    } else {
        lemma_pos_canonical(s, p);
    }
    let k = pos_cidx(s, p);
    lemma_byte_len_take_mono(s, k, s.len() as int);
    assert(s.take(s.len() as int) =~= s);
    lemma_byte_len_bounds(s.take(k));
}

/// The length a line reports: zero for the simulated final line, absent
/// above it, the content length otherwise.
pub open spec fn spec_line_char_len(s: Seq<char>, line: int) -> Option<int> {
    if line == line_count(s) && (s.len() == 0 || is_newline_char(s[s.len() - 1])) {
        Some(0int)
    } else if line >= line_count(s) {
        None
    } else {
        Some(line_content(s, line).len() as int)
    }
}

/// Where the cursor lands after inserting `t` at `pos`: on the same line
/// moved right when `t` holds no line break, else past `t`'s line breaks at
/// the column after its last one.
pub open spec fn post_insert_pos(pos: Pos, t: Seq<char>) -> Pos {
    if nl_count(t) == 0 {
        Pos { line: pos.line, column: (pos.column + t.len()) as usize }
    } else {
        Pos {
            line: (pos.line + nl_count(t)) as usize,
            column: (t.len() - line_start(t, nl_count(t))) as usize,
        }
    }
}

/// The canonical position of character index `k`: the line whose newlines
/// precede it, and the offset from that line's start.
pub open spec fn canon_pos(s: Seq<char>, k: int) -> Pos {
    Pos {
        line: nl_count(s.take(k)) as usize,
        column: (k - line_start(s, nl_count(s.take(k)))) as usize,
    }
}

/// The canonical position depends only on the text before the index.
pub proof fn lemma_canon_depends_on_prefix(s1: Seq<char>, s2: Seq<char>, k: int)
    requires
        0 <= k <= s1.len(),
        k <= s2.len(),
        s1.take(k) == s2.take(k),
    ensures
        canon_pos(s1, k) == canon_pos(s2, k),
{
    let l = nl_count(s1.take(k));
    lemma_nl_count_bounds(s1.take(k));
    assert(s1 =~= s1.take(k) + s1.skip(k));
    lemma_line_start_prefix(s1.take(k), s1.skip(k), l);
    assert(s2 =~= s2.take(k) + s2.skip(k));
    lemma_line_start_prefix(s2.take(k), s2.skip(k), l);
    assert(line_start(s1, l) == line_start(s1.take(k), l));
    assert(line_start(s2, l) == line_start(s2.take(k), l));
}

/// The start of an index's own line precedes it.
pub proof fn lemma_canon_ls_le(s: Seq<char>, k: int)
    requires
        0 <= k <= s.len(),
    ensures
        0 <= line_start(s, nl_count(s.take(k))) <= k,
{
    let l = nl_count(s.take(k));
    lemma_nl_count_bounds(s.take(k));
    assert(s =~= s.take(k) + s.skip(k));
    lemma_line_start_prefix(s.take(k), s.skip(k), l);
    lemma_line_start_bounds(s.take(k), l);
}

/// Inserting the text between two indexes at the canonical position of the
/// first lands the cursor at the canonical position of the second: the
/// post-insert line/column arithmetic is exact.
pub proof fn lemma_canon_shift(s: Seq<char>, k1: int, k2: int)
    requires
        0 <= k1 <= k2 <= s.len(),
        s.len() <= usize::MAX,
    ensures
        post_insert_pos(canon_pos(s, k1), s.subrange(k1, k2)) == canon_pos(s, k2),
{
    let t = s.subrange(k1, k2);
    let l1 = nl_count(s.take(k1));
    let l2 = nl_count(s.take(k2));
    assert(s.take(k2) =~= s.take(k1) + t);
    lemma_nl_count_concat(s.take(k1), t);
    lemma_nl_count_bounds(s.take(k1));
    lemma_nl_count_bounds(t);
    lemma_canon_ls_le(s, k1);
    lemma_canon_ls_le(s, k2);
    assert(l1 <= k1 && l2 <= k2);
    assert(t.len() == k2 - k1);
    if nl_count(t) == 0 {
        assert(l2 == l1);
        assert(canon_pos(s, k2).column == (k2 - line_start(s, l1)) as usize);
    } else {
        let m = line_start(t, nl_count(t));
        lemma_line_start_nl(t, nl_count(t));
        lemma_line_start_bounds(t, nl_count(t));
        assert(m >= 1 && t[m - 1] == '\n');
        let u = s.take(k1 + m);
        assert(u =~= s.take(k1) + t.take(m));
        lemma_nl_count_concat(s.take(k1), t.take(m));
        assert(nl_count(t.take(m)) == nl_count(t));
        assert(nl_count(u) == l1 + nl_count(t));
        assert(nl_count(u) == l2);
        assert(u.len() == k1 + m);
        assert(u[u.len() - 1] == t[m - 1]);
        assert(ends_in_nl(u));
        lemma_line_start_full(u);
        assert(s =~= u + s.skip(k1 + m));
        lemma_line_start_prefix(u, s.skip(k1 + m), l2);
        assert(line_start(s, l2) == k1 + m);
    }
}

/// A valid position (at the simulated slot, only over a real final
/// `'\n'`) is the canonical position of its character index.
pub proof fn lemma_canon_of_valid(s: Seq<char>, p: Pos)
    requires
        pos_valid(s, p),
        sim_final(s, p) ==> (s.len() == 0 || s[s.len() - 1] == '\n'),
    ensures
        canon_pos(s, pos_cidx(s, p)) == p,
{
    if sim_final(s, p) {
        assert(s.take(s.len() as int) =~= s);
        if s.len() == 0 {
            assert(nl_count(s.take(0)) == 0);
            assert(line_start(s, 0) == 0);
        } else {
            assert(ends_in_nl(s));
            lemma_line_start_full(s);
            lemma_nl_count_bounds(s);
        }
    } else {
        lemma_pos_canonical(s, p);
        let k = pos_cidx(s, p);
        assert(nl_count(s.take(k)) == p.line);
    }
}

/// Longer prefixes hold at least as many newlines.
pub proof fn lemma_nl_count_take_mono(s: Seq<char>, k1: int, k2: int)
    requires
        0 <= k1 <= k2 <= s.len(),
    ensures
        nl_count(s.take(k1)) <= nl_count(s.take(k2)),
{
    assert(s.take(k2) =~= s.take(k1) + s.subrange(k1, k2));
    lemma_nl_count_concat(s.take(k1), s.subrange(k1, k2));
    lemma_nl_count_bounds(s.subrange(k1, k2));
}

/// The byte-to-position mapping never addresses a byte past the one it was
/// given.
pub proof fn lemma_pfb_byte_le(s: Seq<char>, b: int)
    requires
        0 <= b <= byte_len_of(s),
        s.len() <= usize::MAX,
    ensures
        pos_byte(s, spec_pos_from_byte(s, b)) <= b,
{
    lemma_pfb_valid(s, b);
    let p = spec_pos_from_byte(s, b);
    lemma_pos_cidx(s, p);
    lemma_line_count_le_len(s);
    if b == byte_len_of(s) {
        assert(s.take(s.len() as int) =~= s);
        if s.len() == 0 || is_newline_char(s[s.len() - 1]) {
        } else {
            lemma_last_line_content(s);
            lemma_line_count_pos(s);
            lemma_line_content(s, line_count(s) - 1);
            lemma_line_start_bounds(s, line_count(s) - 1);
            assert(!sim_final(s, p));
            assert(pos_cidx(s, p) == s.len());
        }
    } else {
        lemma_byte_len_bounds(s);
        lemma_char_floor_floor(s, b);
        let k = char_floor(s, b);
        assert(k < s.len()) by {
            if k == s.len() {
                assert(s.take(k) =~= s);
            }
        }
        lemma_idx_in_line(s, k);
        let l = nl_count(s.take(k));
        lemma_nl_count_bounds(s.take(k));
        lemma_line_content(s, l);
        lemma_line_start_bounds(s, l);
        assert(!sim_final(s, p));
        assert(pos_cidx(s, p) <= k);
        lemma_byte_le_iff(s, pos_cidx(s, p), k);
    }
}

/// The index of a valid position never splits a `"\r\n"` terminator.
pub proof fn lemma_valid_not_mid_crlf(s: Seq<char>, p: Pos)
    requires
        pos_valid(s, p),
        pos_cidx(s, p) < s.len(),
    ensures
        !(pos_cidx(s, p) > 0 && s[pos_cidx(s, p) - 1] == '\r' && s[pos_cidx(s, p)] == '\n'),
{
    let k = pos_cidx(s, p);
    assert(!sim_final(s, p));
    lemma_pos_canonical(s, p);
    let l = p.line as int;
    lemma_line_shape(s, l);
    lemma_line_content(s, l);
    let ls = line_start(s, l);
    let le = line_start(s, l + 1);
    let clen = line_content(s, l).len() as int;
    if k > 0 && s[k - 1] == '\r' && s[k] == '\n' {
        assert(ls <= k <= ls + clen);
        assert(k >= ls + clen) by {
            if k < ls + clen {
                assert(s[k] != '\n');
            }
        }
        assert(k == ls + clen);
        assert(le - (ls + clen) != 0) by {
            if le == ls + clen {
                assert(le == s.len());
            }
        }
        assert(le - (ls + clen) == 1) by {
            if le - (ls + clen) == 2 {
                assert(s[ls + clen] == '\r');
            }
        }
        if clen > 0 {
            assert(s[ls + clen - 1] != '\r');
            assert(false);
        } else {
            assert(k == ls);
            lemma_nl_count_bounds(s);
            lemma_line_count_le_len(s);
            if l >= 1 {
                lemma_line_start_nl(s, l);
                assert(s[ls - 1] == '\n');
                assert(false);
            } else {
                assert(ls == 0);
                assert(false);
            }
        }
    }
}

/// The canonical position of a clean index is valid and addresses it.
pub proof fn lemma_canon_valid(s: Seq<char>, k: int)
    requires
        0 <= k <= s.len(),
        s.len() <= usize::MAX,
        k == s.len() || k - line_start(s, nl_count(s.take(k))) <= line_content(
            s,
            nl_count(s.take(k)),
        ).len(),
    ensures
        pos_valid(s, canon_pos(s, k)),
        pos_cidx(s, canon_pos(s, k)) == k,
{
    let p = canon_pos(s, k);
    lemma_nl_count_bounds(s.take(k));
    lemma_canon_ls_le(s, k);
    lemma_line_count_le_len(s);
    if k < s.len() {
        lemma_idx_in_line(s, k);
        let l = nl_count(s.take(k));
        assert(p.line == l && l < line_count(s));
        assert(!sim_final(s, p));
        assert(pos_cidx(s, p) == k);
    } else {
        assert(s.take(s.len() as int) =~= s);
        if s.len() == 0 {
            assert(nl_count(s.take(0)) == 0);
            assert(line_start(s, 0) == 0);
            assert(sim_final(s, p));
        } else if ends_in_nl(s) {
            lemma_line_start_full(s);
            lemma_nl_count_bounds(s);
            assert(p.line == line_count(s) && p.column == 0);
            assert(sim_final(s, p));
        } else {
            lemma_last_line_content(s);
            lemma_nl_count_bounds(s);
            assert(p.line == line_count(s) - 1);
            assert(!sim_final(s, p));
            assert(p.column == line_content(s, p.line as int).len());
            assert(pos_cidx(s, p) == k);
        }
    }
}

// ---------------------------------------------------------------------------
// Byte offset to position
// ---------------------------------------------------------------------------

/// The position a byte offset maps back to. At the very end of the text the
/// simulated slot is preferred when the last character closes a line;
/// otherwise the offset addresses the character floor on its owning line,
/// clamped to the line's content.
pub open spec fn spec_pos_from_byte(s: Seq<char>, b: int) -> Pos {
    if b == byte_len_of(s) {
        if s.len() == 0 || is_newline_char(s[s.len() - 1]) {
            Pos { line: line_count(s) as usize, column: 0 }
        } else {
            Pos {
                line: (line_count(s) - 1) as usize,
                column: line_content(s, line_count(s) - 1).len() as usize,
            }
        }
    } else {
        let k = char_floor(s, b);
        let l = nl_count(s.take(k));
        let col_raw = k - line_start(s, l);
        let col = if col_raw <= line_content(s, l).len() {
            col_raw
        } else {
            line_content(s, l).len() as int
        };
        Pos { line: l as usize, column: col as usize }
    }
}

/// In the no-trailing-newline case the last line's content reaches the end
/// of the text.
pub proof fn lemma_last_line_content(s: Seq<char>)
    requires
        s.len() > 0,
        s[s.len() - 1] != '\n',
    ensures
        line_start(s, line_count(s) - 1) + line_content(s, line_count(s) - 1).len() == s.len(),
        line_content(s, line_count(s) - 1).len() >= 0,
{
    let l = line_count(s) - 1;
    lemma_nl_count_bounds(s);
    assert(l == nl_count(s));
    lemma_line_start_nl(s, l);
    lemma_line_start_nl(s, l + 1);
    lemma_line_start_bounds(s, l);
    lemma_nl_count_bounds(s);
    assert(line_start(s, l + 1) == s.len());
    let raw = raw_line(s, l);
    assert(raw.len() > 0);
    assert(raw[raw.len() - 1] == s[s.len() - 1]);
    assert(line_content(s, l) == raw);
}

/// A character index that does not split a `"\r\n"` terminator lies
/// within its line's content, or at the very end of the text.
pub proof fn lemma_clean_idx(s: Seq<char>, k: int)
    requires
        0 <= k <= s.len(),
        !(0 < k < s.len() && s[k - 1] == '\r' && s[k] == '\n'),
    ensures
        k == s.len() || ({
            let l = nl_count(s.take(k));
            k - line_start(s, l) <= line_content(s, l).len()
        }),
{
    if k < s.len() {
        lemma_idx_in_line(s, k);
        let l = nl_count(s.take(k));
        lemma_line_shape(s, l);
        let ls = line_start(s, l);
        let le = line_start(s, l + 1);
        let clen = line_content(s, l).len() as int;
        if k - ls > clen {
            assert(le - (ls + clen) == 2);
            assert(k == ls + clen + 1);
            assert(s[k - 1] == '\r');
            assert(s[k] == '\n');
            assert(false);
        }
    }
}

/// On a boundary within a line's content (or at the very end), the
/// byte-to-position mapping is a right inverse of the position-to-byte
/// mapping.
pub proof fn lemma_pfb_inverse(s: Seq<char>, b: int)
    requires
        is_boundary(s, b),
        b <= byte_len_of(s),
        s.len() <= usize::MAX,
        b == byte_len_of(s) || ({
            let k = char_floor(s, b);
            let l = nl_count(s.take(k));
            k - line_start(s, l) <= line_content(s, l).len()
        }),
    ensures
        pos_byte(s, spec_pos_from_byte(s, b)) == b,
        pos_cidx(s, spec_pos_from_byte(s, b)) == char_floor(s, b),
{
    lemma_line_count_le_len(s);
    lemma_nl_count_bounds(s);
    if b == byte_len_of(s) {
        assert(s.take(s.len() as int) =~= s);
        lemma_char_floor_of_take(s, s.len() as int);
        if s.len() == 0 || is_newline_char(s[s.len() - 1]) {
            let p = spec_pos_from_byte(s, b);
            assert(sim_final(s, p));
        } else {
            lemma_last_line_content(s);
            lemma_line_count_pos(s);
            lemma_line_content(s, line_count(s) - 1);
            lemma_line_start_bounds(s, line_count(s) - 1);
            lemma_line_start_bounds(s, line_count(s));
            let p = spec_pos_from_byte(s, b);
            assert(!sim_final(s, p));
            assert(pos_cidx(s, p) == s.len());
        }
    } else {
        lemma_byte_len_bounds(s);
        let k = char_floor(s, b);
        lemma_char_floor_floor(s, b);
        assert(k < s.len()) by {
            if k == s.len() {
                assert(s.take(k) =~= s);
            }
        }
        lemma_idx_in_line(s, k);
        let l = nl_count(s.take(k));
        lemma_nl_count_bounds(s.take(k));
        lemma_line_start_bounds(s, l);
        let p = spec_pos_from_byte(s, b);
        assert(p.line == l && p.column == k - line_start(s, l));
        assert(!sim_final(s, p));
        assert(pos_cidx(s, p) == k);
    }
}

/// On valid positions that are not the simulated slot (and, at the very
/// end of the text, only where the text does not end in a newline-class
/// character), the byte-to-position mapping is a left inverse.
pub proof fn lemma_pfb_of_valid(s: Seq<char>, p: Pos)
    requires
        pos_valid(s, p),
        !sim_final(s, p),
        pos_cidx(s, p) < s.len() || (s.len() > 0 && !is_newline_char(s[s.len() - 1])),
    ensures
        spec_pos_from_byte(s, pos_byte(s, p)) == p,
{
    lemma_pos_canonical(s, p);
    lemma_nl_count_bounds(s);
    let k = pos_cidx(s, p);
    let b = pos_byte(s, p);
    let l = p.line as int;
    lemma_line_content(s, l);
    lemma_line_start_bounds(s, l);
    if k < s.len() {
        lemma_byte_len_take_succ(s, k);
        lemma_byte_len_take_mono(s, k + 1, s.len() as int);
        assert(s.take(s.len() as int) =~= s);
        lemma_byte_len_split(s, k);
        assert(b < byte_len_of(s));
        assert(char_floor(s, b) == k);
        lemma_line_start_nl(s, l);
        assert(spec_pos_from_byte(s, b).line == l);
        assert(spec_pos_from_byte(s, b).column == p.column);
    } else {
        assert(k == s.len());
        assert(b == byte_len_of(s)) by {
            assert(s.take(s.len() as int) =~= s);
        }
        lemma_last_line_content(s);
        assert(l == line_count(s) - 1) by {
            assert(s.take(s.len() as int) =~= s);
            assert(nl_count(s.take(k)) == p.line);
            assert(!ends_in_nl(s));
        }
        assert(p.column == line_content(s, l).len());
    }
}
pub proof fn lemma_pfb_valid(s: Seq<char>, b: int)
    requires
        0 <= b <= byte_len_of(s),
        s.len() <= usize::MAX,
    ensures
        pos_valid(s, spec_pos_from_byte(s, b)),
        spec_pos_from_byte(s, b).line <= s.len(),
        spec_pos_from_byte(s, b).column <= s.len(),
{
    lemma_nl_count_bounds(s);
    lemma_line_count_le_len(s);
    if b == byte_len_of(s) {
        if s.len() == 0 || is_newline_char(s[s.len() - 1]) {
        } else {
            lemma_last_line_content(s);
            lemma_line_start_bounds(s, line_count(s) - 1);
        }
    } else {
        lemma_byte_len_bounds(s);
        lemma_char_floor_floor(s, b);
        let k = char_floor(s, b);
        assert(k < s.len()) by {
            if k == s.len() {
                assert(s.take(k) =~= s);
            }
        }
        lemma_idx_in_line(s, k);
        let l = nl_count(s.take(k));
        lemma_line_content(s, l);
        lemma_line_start_bounds(s, l);
    }
}

} // verus!
