//! Operators over motions (`d`, `c`, `y` followed by a motion): the range
//! a motion covers, with vim's adjustments, and what the operator does to
//! the buffer, the cursor, the registers and the mode.

use vstd::prelude::*;

use ropey::Rope;

use crate::chars::{chars_of, string_of, utf8_size, utf8_size_of};
use crate::editing::buffer::{model_begin, model_end, model_insert, model_remove, Buffer, Cursor};
use crate::editing::commands::{FindKind, Op, Register};
use crate::editing::lines::{
    first_non_blank, indent_len, line_content, line_indent, line_len, max_normal_col,
    spec_first_non_blank, spec_line_content, spec_max_normal_col, spec_text_lines, text_lines,
    lemma_text_lines_bound,
};
use crate::editing::textobject::lines_end;
use crate::config::TABSTOP;
use crate::editor::{FlashRegion, Mode};
use crate::editing::motion::{
    abs_of, cursor_ok, resolvable, resolve, spec_resolve, text_fits, Motion, MotionCtx, MotionKind,
    MotionOutcome,
};
use crate::editing::rope::{
    breaks_upto, lemma_line_start, lemma_line_start_len, line_count, line_start, rope_char,
    rope_char_to_line, rope_len_chars, rope_len_lines, rope_line_to_char, rope_text,
};
use crate::editing::text::{
    char_class, end_col, first_at_col, gr_index_at_col, line_graphemes, snap_to_grapheme,
    spec_char_class, spec_line_graphemes, CharClass,
};

verus! {

/// The range an operator acts on.
#[derive(Debug, Clone, Copy, PartialEq, Eq, Structural)]
pub enum Span {
    /// Whole lines `l1..=l2`.
    Lines(usize, usize),
    /// Chars `start..end` (not empty).
    Chars(usize, usize),
    /// An empty range at a char index: a change still enters insert mode
    /// there.
    Empty(usize),
    /// Nothing to act on.
    Nothing,
}

/// `cw` on a non-blank acts like `ce` (vim's special case).
pub open spec fn op_motion(t: Seq<char>, cursor: Cursor, op: Op, motion: Motion) -> Motion {
    match motion {
        Motion::WordForward { big } => if op == Op::Change && cursor.col < spec_line_content(
            t,
            cursor.line as nat,
        ).len() && spec_char_class(t[abs_of(t, cursor)], false) != CharClass::Blank {
            Motion::WordEnd { big }
        } else {
            motion
        },
        _ => motion,
    }
}

/// Where an inclusive target's range ends: past the grapheme cluster under
/// it.
pub open spec fn spec_inclusive_end(t: Seq<char>, c: Cursor, tabstop: nat) -> int {
    let grs = spec_line_graphemes(spec_line_content(t, c.line as nat), tabstop);
    line_start(t, c.line as nat) + match first_at_col(grs, c.col as int, 0) {
        Some(i) => grs[i].char_off + grs[i].chars,
        None => c.col as int,
    }
}

/// Vim's word-motion adjustment: a `w`-family target in column 0 of a
/// later line backs up to the end of the previous line.
pub open spec fn word_adjusted(motion: Motion, cursor: Cursor, target: Cursor) -> bool {
    motion is WordForward && target.line > cursor.line && target.col == 0
}

/// The range an operator covers from `cursor` to the motion's outcome.
/// Linewise motions take whole lines. Otherwise the chars between cursor and
/// target (the target's cluster included for inclusive motions), adjusted
/// like vim: a `w` target in column 0 of a later line ends the range at the
/// end of the line before (an empty line before it is taken with its
/// break); an exclusive range ending in column 0 of a later line ends at the
/// end of the line before, and becomes linewise when it starts within its
/// line's indent.
pub open spec fn spec_span(t: Seq<char>, cursor: Cursor, op: Op, motion: Motion, out: MotionOutcome, tabstop: nat) -> Span {
    let tgt0 = out.cursor;
    if out.kind == MotionKind::Linewise {
        if tgt0.line < cursor.line {
            Span::Lines(tgt0.line, cursor.line)
        } else {
            Span::Lines(cursor.line, tgt0.line)
        }
    } else {
        let wadj = word_adjusted(motion, cursor, tgt0);
        let prev = tgt0.line - 1;
        let plen = spec_line_content(t, prev as nat).len() as int;
        let target = if wadj {
            Cursor { line: prev as usize, col: plen as usize }
        } else {
            tgt0
        };
        let a_cur = abs_of(t, cursor);
        let a_tgt = abs_of(t, target);
        let fwd = a_cur <= a_tgt;
        let start0 = if fwd {
            a_cur
        } else {
            a_tgt
        };
        let end0 = if fwd {
            if out.kind == MotionKind::Inclusive {
                spec_inclusive_end(t, target, tabstop)
            } else {
                a_tgt
            }
        } else if out.kind == MotionKind::Inclusive {
            spec_inclusive_end(t, cursor, tabstop)
        } else {
            a_cur
        };
        let s_cur = if fwd {
            cursor
        } else {
            target
        };
        let e_cur = if fwd {
            target
        } else {
            cursor
        };
        let xadj = !wadj && out.kind == MotionKind::Exclusive && e_cur.col == 0 && e_cur.line
            > s_cur.line;
        if xadj && s_cur.col <= indent_len(spec_line_content(t, s_cur.line as nat)) {
            Span::Lines(s_cur.line, (e_cur.line - 1) as usize)
        } else {
            let ep = e_cur.line - 1;
            let xend = line_start(t, ep as nat) + spec_line_content(t, ep as nat).len();
            let start = if xadj && start0 > xend {
                xend
            } else {
                start0
            };
            let end = if wadj {
                line_start(t, prev as nat) + if plen > 0 {
                    plen
                } else {
                    1
                }
            } else if xadj {
                xend
            } else {
                end0
            };
            if start >= end {
                if op == Op::Change {
                    Span::Empty(start as usize)
                } else {
                    Span::Nothing
                }
            } else {
                Span::Chars(start as usize, end as usize)
            }
        }
    }
}

/// What an operator with a motion targets: `None` when the motion cannot
/// move; else the span, and the find the motion makes repeatable.
pub open spec fn spec_target(
    t: Seq<char>,
    cursor: Cursor,
    op: Op,
    motion: Motion,
    count: Option<usize>,
    goal: Option<usize>,
    last_find: Option<(FindKind, char)>,
    tabstop: nat,
) -> Option<(Span, Option<(FindKind, char)>)> {
    let m = op_motion(t, cursor, op, motion);
    match spec_resolve(m, count, cursor, t, goal, last_find, tabstop, true) {
        None => None,
        Some(out) => Some((spec_span(t, cursor, op, m, out, tabstop), out.new_last_find)),
    }
}

/// A text that fits the layout fits in memory indices with room to spare.
pub proof fn lemma_fits_len(t: Seq<char>, tabstop: nat)
    requires
        text_fits(t, tabstop),
    ensures
        t.len() * 3 <= usize::MAX,
{
    assert(t.len() * 3 <= t.len() * (3 + tabstop)) by (nonlinear_arith);
}

pub proof fn lemma_indent_len(s: Seq<char>)
    ensures
        indent_len(s) <= s.len(),
    decreases s.len(),
{
    if s.len() > 0 && (s[0] == ' ' || s[0] == '\t') {
        lemma_indent_len(s.skip(1));
    }
}

/// A valid cursor's char index is within the text, its line's content
/// ending there too.
pub proof fn lemma_cursor_abs(t: Seq<char>, c: Cursor)
    requires
        cursor_ok(t, c),
    ensures
        0 <= line_start(t, c.line as nat) <= abs_of(t, c),
        abs_of(t, c) <= line_start(t, c.line as nat) + spec_line_content(t, c.line as nat).len()
            <= t.len(),
{
    lemma_line_start_len(t, c.line as nat);
}

/// Where an inclusive target's range ends (the cursor must be valid).
pub(crate) fn inclusive_end(rope: &Rope, target: Cursor, tabstop: usize) -> (e: usize)
    requires
        cursor_ok(rope_text(*rope), target),
        text_fits(rope_text(*rope), tabstop as nat),
    ensures
        e == spec_inclusive_end(rope_text(*rope), target, tabstop as nat),
        e <= rope_text(*rope).len(),
{
    let ghost t = rope_text(*rope);
    let len = rope_len_chars(rope);
    proof {
        lemma_cursor_abs(t, target);
        crate::editing::motion::lemma_content_fits(t, target.line as nat, tabstop as nat);
    }
    let content = crate::editing::lines::line_content(rope, target.line);
    let grs = line_graphemes(content.as_str(), tabstop);
    let base = rope_line_to_char(rope, target.line);
    match gr_index_at_col(grs.as_slice(), target.col) {
        Some(i) => {
            assert(grs@[i as int].char_off + grs@[i as int].chars <= content@.len());
            base + grs[i].char_off + grs[i].chars
        },
        None => base + target.col,
    }
}

/// The range from `cursor` to a motion outcome (see [`spec_span`]).
#[verifier::spinoff_prover]
#[verifier::rlimit(60)]
fn span_of(rope: &Rope, cursor: Cursor, op: Op, motion: Motion, out: &MotionOutcome, tabstop: usize) -> (s: Span)
    requires
        cursor_ok(rope_text(*rope), cursor),
        cursor_ok(rope_text(*rope), out.cursor),
        text_fits(rope_text(*rope), tabstop as nat),
    ensures
        s == spec_span(rope_text(*rope), cursor, op, motion, *out, tabstop as nat),
        s matches Span::Chars(a, b) ==> a < b <= rope_text(*rope).len(),
        s matches Span::Empty(a) ==> a <= rope_text(*rope).len(),
        s matches Span::Lines(l1, l2) ==> l1 <= l2 < line_count(rope_text(*rope)),
{
    let ghost t = rope_text(*rope);
    proof {
        lemma_fits_len(t, tabstop as nat);
    }
    let tgt0 = out.cursor;
    if out.kind == MotionKind::Linewise {
        return if tgt0.line < cursor.line {
            Span::Lines(tgt0.line, cursor.line)
        } else {
            Span::Lines(cursor.line, tgt0.line)
        };
    }
    let wadj = match motion {
        Motion::WordForward { .. } => tgt0.line > cursor.line && tgt0.col == 0,
        _ => false,
    };
    assert(wadj == word_adjusted(motion, cursor, tgt0));
    let mut target = tgt0;
    let mut wae: usize = 0;
    if wadj {
        let prev = tgt0.line - 1;
        let plen = line_len(rope, prev);
        let base = rope_line_to_char(rope, prev);
        proof {
            lemma_line_start_len(t, prev as nat);
            lemma_line_start(t, prev as nat, tgt0.line as nat);
            lemma_cursor_abs(t, tgt0);
            crate::editing::rope::lemma_line_starts_increase(t, prev as nat);
        }
        wae = base + if plen > 0 {
            plen
        } else {
            1
        };
        target = Cursor::new(prev, plen);
    }
    proof {
        lemma_cursor_abs(t, cursor);
        lemma_cursor_abs(t, target);
    }
    let a_cur = rope_line_to_char(rope, cursor.line) + cursor.col;
    let a_tgt = rope_line_to_char(rope, target.line) + target.col;
    let (mut start, mut end) = if a_cur <= a_tgt {
        let end = if out.kind == MotionKind::Inclusive {
            inclusive_end(rope, target, tabstop)
        } else {
            a_tgt
        };
        (a_cur, end)
    } else {
        let end = if out.kind == MotionKind::Inclusive {
            inclusive_end(rope, cursor, tabstop)
        } else {
            a_cur
        };
        (a_tgt, end)
    };
    if wadj {
        end = wae;
    } else if out.kind == MotionKind::Exclusive {
        let (s_cur, e_cur) = if a_cur <= a_tgt {
            (cursor, target)
        } else {
            (target, cursor)
        };
        if e_cur.col == 0 && e_cur.line > s_cur.line {
            let prev = e_cur.line - 1;
            let indent = line_indent(rope, s_cur.line);
            let n_indent = crate::chars::chars_of(indent.as_str()).len();
            proof {
                lemma_indent_len(spec_line_content(t, s_cur.line as nat));
            }
            if s_cur.col <= n_indent {
                return Span::Lines(s_cur.line, prev);
            }
            let plen = line_len(rope, prev);
            proof {
                lemma_line_start_len(t, prev as nat);
            }
            end = rope_line_to_char(rope, prev) + plen;
            if start > end {
                start = end;
            }
        }
    }
    if start >= end {
        if op == Op::Change {
            return Span::Empty(start);
        }
        return Span::Nothing;
    }
    Span::Chars(start, end)
}

/// What an operator with a motion targets (see [`spec_target`]).
pub fn operator_target(
    rope: &Rope,
    cursor: Cursor,
    op: Op,
    motion: Motion,
    count: Option<usize>,
    goal: Option<usize>,
    last_find: Option<(FindKind, char)>,
    tabstop: usize,
) -> (r: Option<(Span, Option<(FindKind, char)>)>)
    requires
        resolvable(motion, count, cursor, rope_text(*rope), tabstop as nat),
    ensures
        r == spec_target(rope_text(*rope), cursor, op, motion, count, goal, last_find, tabstop as nat),
        r matches Some((s, _)) ==> (s matches Span::Chars(a, b) ==> a < b <= rope_text(*rope).len())
            && (s matches Span::Empty(a) ==> a <= rope_text(*rope).len()) && (s matches Span::Lines(
            l1,
            l2,
        ) ==> l1 <= l2 < line_count(rope_text(*rope))),
{
    let ghost t = rope_text(*rope);
    proof {
        lemma_fits_len(t, tabstop as nat);
    }
    let m = match motion {
        Motion::WordForward { big } => {
            let len = line_len(rope, cursor.line);
            if op == Op::Change && cursor.col < len {
                proof {
                    lemma_cursor_abs(t, cursor);
                }
                let abs = rope_line_to_char(rope, cursor.line) + cursor.col;
                if char_class(rope_char(rope, abs), false) != CharClass::Blank {
                    Motion::WordEnd { big }
                } else {
                    motion
                }
            } else {
                motion
            }
        },
        _ => motion,
    };
    assert(m == op_motion(t, cursor, op, motion));
    let ctx = MotionCtx { rope, goal, last_find, tabstop, for_operator: true };
    match resolve(m, count, cursor, &ctx) {
        None => None,
        Some(out) => {
            let lf = out.new_last_find;
            Some((span_of(rope, cursor, op, m, &out, tabstop), lf))
        },
    }
}

// ----------------------------------------------------------------------
// applying an operator
// ----------------------------------------------------------------------

/// The part of the editor that operators and simple edits read and change.
pub struct EditState {
    pub buffer: Buffer,
    pub cursor: Cursor,
    pub mode: Mode,
    pub goal: Option<usize>,
    pub last_find: Option<(FindKind, char)>,
    /// The yank register: written by `y`, read by `p`/`P`.
    pub yank_reg: Option<Register>,
    /// The cut register: written by deletes and changes.
    pub cut_reg: Option<Register>,
    /// A change was committed since the last recording started.
    pub change_started: bool,
}

/// What the editor does after an operator besides changing its state.
pub struct OpEffect {
    /// Yanked text to mirror to the system clipboard.
    pub clipboard: Option<String>,
    /// The yanked region to highlight briefly.
    pub flash: Option<FlashRegion>,
}

/// Yanks of more than 5MB are not mirrored to the clipboard.
pub const CLIPBOARD_MAX_BYTES: usize = 5 * 1024 * 1024;

/// The clipboard mirror of a yank: non-empty text within the size limit.
pub open spec fn spec_clipboard(text: Seq<char>) -> Option<Seq<char>> {
    if text.len() > 0 && utf8_size(text) <= CLIPBOARD_MAX_BYTES {
        Some(text)
    } else {
        None
    }
}

/// The register holds charwise text.
pub open spec fn holds_chars(r: Option<Register>, text: Seq<char>) -> bool {
    r matches Some(Register::Char(s)) && s@ == text
}

/// The register holds linewise text.
pub open spec fn holds_lines(r: Option<Register>, text: Seq<char>) -> bool {
    r matches Some(Register::Line(s)) && s@ == text
}

/// The effect of a yank: its clipboard mirror and flash.
pub open spec fn yank_effect(e: OpEffect, text: Seq<char>, flash: FlashRegion) -> bool {
    &&& (match (e.clipboard, spec_clipboard(text)) {
        (Some(c), Some(x)) => c@ == x,
        (None, None) => true,
        _ => false,
    })
    &&& e.flash == Some(flash)
}

/// No effect.
pub open spec fn no_effect(e: OpEffect) -> bool {
    e.clipboard is None && e.flash is None
}

/// Where the cursor lands on a char index after an operator: on its line
/// (the last one past the end), at most at the last normal-mode column,
/// snapped to the start of its grapheme cluster.
pub open spec fn spec_land(t: Seq<char>, abs: int, tabstop: nat) -> Cursor {
    if t.len() == 0 {
        Cursor { line: 0, col: 0 }
    } else {
        let last = spec_text_lines(t) - 1;
        let a = if abs < t.len() {
            abs
        } else {
            t.len() as int
        };
        let line = if breaks_upto(t, a) < last {
            breaks_upto(t, a) as int
        } else {
            last
        };
        let content = spec_line_content(t, line as nat);
        let col0 = if abs >= line_start(t, line as nat) {
            abs - line_start(t, line as nat)
        } else {
            0
        };
        let mc = spec_max_normal_col(content, tabstop);
        let col1 = if col0 < mc {
            col0
        } else {
            mc
        };
        let grs = spec_line_graphemes(content, tabstop);
        let col = match first_at_col(grs, col1, 0) {
            Some(i) => grs[i].char_off as int,
            None => end_col(grs),
        };
        Cursor { line: line as usize, col: col as usize }
    }
}

pub(crate) fn land(rope: &Rope, abs: usize, tabstop: usize) -> (c: Cursor)
    requires
        text_fits(rope_text(*rope), tabstop as nat),
    ensures
        c == spec_land(rope_text(*rope), abs as int, tabstop as nat),
        cursor_ok(rope_text(*rope), c),
{
    let ghost t = rope_text(*rope);
    let len = rope_len_chars(rope);
    if len == 0 {
        return Cursor { line: 0, col: 0 };
    }
    proof {
        lemma_text_lines_bound(t);
    }
    let last = text_lines(rope) - 1;
    let a = if abs < len {
        abs
    } else {
        len
    };
    let l0 = rope_char_to_line(rope, a);
    let line = if l0 < last {
        l0
    } else {
        last
    };
    proof {
        crate::editing::motion::lemma_content_fits(t, line as nat, tabstop as nat);
    }
    let ls = rope_line_to_char(rope, line);
    let col0 = if abs >= ls {
        abs - ls
    } else {
        0
    };
    let mc = max_normal_col(rope, line, tabstop);
    let col1 = if col0 < mc {
        col0
    } else {
        mc
    };
    let content = line_content(rope, line);
    let grs = line_graphemes(content.as_str(), tabstop);
    let col = snap_to_grapheme(grs.as_slice(), col1);
    proof {
        crate::editing::text::lemma_first_at_col_range(grs@, col1 as int, 0);
    }
    Cursor::new(line, col)
}

/// The chars `a..b` of the rope.
pub(crate) fn chars_between(rope: &Rope, a: usize, b: usize) -> (v: Vec<char>)
    requires
        a <= b <= rope_text(*rope).len(),
    ensures
        v@ == rope_text(*rope).subrange(a as int, b as int),
{
    let mut v: Vec<char> = Vec::new();
    let mut i = a;
    while i < b
        invariant
            a <= i <= b <= rope_text(*rope).len(),
            v@ == rope_text(*rope).subrange(a as int, i as int),
        decreases b - i,
    {
        v.push(rope_char(rope, i));
        i = i + 1;
    }
    v
}

/// The clipboard mirror of a yank.
fn clipboard_of(text: &Vec<char>) -> (c: Option<String>)
    ensures
        match (c, spec_clipboard(text@)) {
            (Some(s), Some(x)) => s@ == x,
            (None, None) => true,
            _ => false,
        },
{
    if text.len() > 0 && utf8_size_of(text.as_slice()) <= CLIPBOARD_MAX_BYTES as u128 {
        Some(string_of(text.as_slice()))
    } else {
        None
    }
}

/// The line the cursor goes to for a change at a char index, and the
/// column there.
pub open spec fn change_cursor(t: Seq<char>, start: int) -> Cursor {
    let a = if start < t.len() {
        start
    } else {
        t.len() as int
    };
    let line = if breaks_upto(t, a) < spec_text_lines(t) - 1 {
        breaks_upto(t, a) as int
    } else {
        spec_text_lines(t) - 1
    };
    Cursor { line: line as usize, col: (start - line_start(t, line as nat)) as usize }
}

fn change_cursor_of(rope: &Rope, start: usize) -> (c: Cursor)
    requires
        start <= rope_text(*rope).len(),
    ensures
        c == change_cursor(rope_text(*rope), start as int),
        c.col as int == start - line_start(rope_text(*rope), c.line as nat),
{
    let ghost t = rope_text(*rope);
    let len = rope_len_chars(rope);
    proof {
        lemma_text_lines_bound(t);
    }
    let a = if start < len {
        start
    } else {
        len
    };
    let l0 = rope_char_to_line(rope, a);
    let last = text_lines(rope) - 1;
    let line = if l0 < last {
        l0
    } else {
        last
    };
    proof {
        crate::editing::rope::lemma_line_start_before(t, line as nat, start as int);
    }
    let ls = rope_line_to_char(rope, line);
    Cursor::new(line, start - ls)
}

/// The buffer after a change of `start..end` opens: its transaction begun
/// with the cursor where the change starts, the range removed.
pub open spec fn change_model(st: EditState, start: int, end: int) -> crate::editing::buffer::BufModel {
    let m1 = model_begin(st.buffer@, change_cursor(st.buffer@.text, start));
    if end > start {
        model_remove(m1, start, end)
    } else {
        m1
    }
}

/// Room in the buffer's counters for one more change transaction.
pub open spec fn counters_fit(st: EditState) -> bool {
    st.buffer@.revision < u64::MAX - 2 && st.buffer@.depth < u32::MAX
}

impl EditState {
    /// Removes `start..end` in a new change and enters insert mode where it
    /// started (a change with an empty range just enters insert mode).
    pub fn change_range(&mut self, start: usize, end: usize)
        requires
            start <= end <= old(self).buffer@.text.len(),
            counters_fit(*old(self)),
        ensures
            final(self).buffer@ == change_model(*old(self), start as int, end as int),
            final(self).cursor == change_cursor(final(self).buffer@.text, start as int),
            final(self).goal is None,
            final(self).mode == Mode::Insert,
            final(self).yank_reg == old(self).yank_reg,
            final(self).cut_reg == old(self).cut_reg,
            final(self).last_find == old(self).last_find,
            final(self).change_started == old(self).change_started,
    {
        let c0 = change_cursor_of(&self.buffer.rope, start);
        self.buffer.begin_change(c0);
        if end > start {
            self.buffer.remove(start, end);
        }
        let ghost t2 = rope_text(self.buffer.rope);
        assert(start <= t2.len());
        self.cursor = change_cursor_of(&self.buffer.rope, start);
        self.goal = None;
        self.mode = Mode::Insert;
    }
}

/// The text a linewise operator takes from lines `l1..=l2`: their chars,
/// ending with a line break.
pub open spec fn lines_text(t: Seq<char>, l1: int, l2: int) -> Seq<char> {
    let x = t.subrange(line_start(t, l1 as nat), lines_end(t, l2));
    if x.len() > 0 && x.last() == '\n' {
        x
    } else {
        x.push('\n')
    }
}

/// An operator other than the shifts.
pub open spec fn text_op(op: Op) -> bool {
    op == Op::Delete || op == Op::Change || op == Op::Yank
}

/// The buffer after a charwise delete of `start..end`, in its own
/// transaction.
pub open spec fn delete_model(st: EditState, start: int, end: int) -> (crate::editing::buffer::BufModel, bool) {
    model_end(model_remove(model_begin(st.buffer@, st.cursor), start, end))
}

/// The buffer after a linewise delete of `start..end`, in its own
/// transaction: a text left empty keeps one empty line.
pub open spec fn delete_lines_model(st: EditState, start: int, end: int) -> (crate::editing::buffer::BufModel, bool) {
    let m = model_remove(model_begin(st.buffer@, st.cursor), start, end);
    let m2 = if m.text.len() == 0 {
        model_insert(m, 0, seq!['\n'])
    } else {
        m
    };
    model_end(m2)
}

/// The buffer after a linewise change of `start..end`: its transaction
/// begun with the cursor at the kept indent, the lines replaced by that
/// indent alone.
pub open spec fn change_lines_model(st: EditState, l1: int, start: int, end: int) -> crate::editing::buffer::BufModel {
    let t = st.buffer@.text;
    let c = spec_line_content(t, l1 as nat);
    let indent = c.take(indent_len(c) as int);
    let m1 = model_begin(st.buffer@, Cursor { line: l1 as usize, col: indent.len() as usize });
    model_insert(model_remove(m1, start, end), start, indent.push('\n'))
}

/// Everything but the buffer, cursor, mode, goal and registers stays.
pub open spec fn keeps_rest(a: EditState, b: EditState) -> bool {
    b.last_find == a.last_find
}

/// After a charwise operator on `start..end`: yank copies the chars (the
/// cursor moves back to the start if it was after it); delete cuts them in
/// their own change and lands the cursor at the start; change cuts them
/// and enters insert mode there.
pub open spec fn chars_post(s0: EditState, s1: EditState, e: OpEffect, op: Op, start: int, end: int, tabstop: nat) -> bool {
    let t = s0.buffer@.text;
    let text = t.subrange(start, end);
    &&& s1.goal is None
    &&& op == Op::Yank ==> {
        &&& holds_chars(s1.yank_reg, text)
        &&& s1.cut_reg == s0.cut_reg
        &&& s1.buffer@ == s0.buffer@
        &&& s1.cursor == (if abs_of(t, s0.cursor) > start {
            spec_land(t, start, tabstop)
        } else {
            s0.cursor
        })
        &&& s1.mode == s0.mode
        &&& s1.change_started == s0.change_started
        &&& yank_effect(e, text, FlashRegion::Char(start as usize, end as usize))
    }
    &&& op == Op::Delete ==> {
        &&& holds_chars(s1.cut_reg, text)
        &&& s1.yank_reg == s0.yank_reg
        &&& s1.buffer@ == delete_model(s0, start, end).0
        &&& s1.cursor == spec_land(
            model_remove(model_begin(s0.buffer@, s0.cursor), start, end).text,
            start,
            tabstop,
        )
        &&& s1.mode == s0.mode
        &&& s1.change_started == (s0.change_started || delete_model(s0, start, end).1)
        &&& no_effect(e)
    }
    &&& op == Op::Change ==> {
        &&& holds_chars(s1.cut_reg, text)
        &&& s1.yank_reg == s0.yank_reg
        &&& empty_or_change_post(s0, s1, start, end)
        &&& no_effect(e)
    }
}

/// After a change of `start..end` (possibly empty): the range removed in a
/// new change, insert mode where it started.
pub open spec fn empty_or_change_post(s0: EditState, s1: EditState, start: int, end: int) -> bool {
    &&& s1.buffer@ == change_model(s0, start, end)
    &&& s1.cursor == change_cursor(s1.buffer@.text, start)
    &&& s1.goal is None
    &&& s1.mode == Mode::Insert
    &&& s1.change_started == s0.change_started
}

/// After a linewise operator on lines `l1..=l2`.
pub open spec fn lines_post(s0: EditState, s1: EditState, e: OpEffect, op: Op, l1: int, l2: int) -> bool {
    &&& s1.goal is None
    &&& op == Op::Yank ==> yank_lines_post(s0, s1, e, l1, l2)
    &&& op == Op::Delete ==> delete_lines_post(s0, s1, e, l1, l2)
    &&& op == Op::Change ==> change_lines_post(s0, s1, e, l1, l2)
}

impl EditState {
    /// A charwise operator on `start..end`: yank copies it; delete removes
    /// it in its own change and lands the cursor there; change removes it
    /// and enters insert mode.
    pub fn charwise_op(&mut self, op: Op, start: usize, end: usize, tabstop: usize) -> (e: OpEffect)
        requires
            text_op(op),
            start < end <= old(self).buffer@.text.len(),
            counters_fit(*old(self)),
            text_fits(old(self).buffer@.text, tabstop as nat),
            cursor_ok(old(self).buffer@.text, old(self).cursor),
        ensures
            chars_post(*old(self), *final(self), e, op, start as int, end as int, tabstop as nat),
            keeps_rest(*old(self), *final(self)),
    {
        let ghost t = self.buffer@.text;
        let text = chars_between(&self.buffer.rope, start, end);
        let mut effect = OpEffect { clipboard: None, flash: None };
        if op == Op::Yank {
            effect.clipboard = clipboard_of(&text);
            self.yank_reg = Some(Register::Char(string_of(text.as_slice())));
        } else {
            self.cut_reg = Some(Register::Char(string_of(text.as_slice())));
        }
        self.goal = None;
        match op {
            Op::Yank => {
                effect.flash = Some(FlashRegion::Char(start, end));
                let cur = land(&self.buffer.rope, start, tabstop);
                proof {
                    lemma_cursor_abs(t, self.cursor);
                    lemma_fits_len(t, tabstop as nat);
                }
                let a = rope_line_to_char(&self.buffer.rope, self.cursor.line) + self.cursor.col;
                if a > start {
                    self.cursor = cur;
                }
            },
            Op::Delete => {
                self.buffer.begin_change(self.cursor);
                self.buffer.remove(start, end);
                proof {
                    lemma_removed_fits(t, start as int, end as int, tabstop as nat, self.buffer@.text);
                }
                self.cursor = land(&self.buffer.rope, start, tabstop);
                let committed = self.buffer.end_change();
                if committed {
                    self.change_started = true;
                }
            },
            _ => {
                self.change_range(start, end);
            },
        }
        effect
    }
}

/// A text that fits the layout still does after chars are removed.
proof fn lemma_removed_fits(t: Seq<char>, a: int, b: int, tabstop: nat, t2: Seq<char>)
    requires
        text_fits(t, tabstop),
        t2.len() <= t.len(),
    ensures
        text_fits(t2, tabstop),
{
    assert(t2.len() * (3 + tabstop) <= t.len() * (3 + tabstop)) by (nonlinear_arith)
        requires
            t2.len() <= t.len(),
    ;
}

/// Lines `l1..=l2` (with `l1` an existing line) span a valid char range.
proof fn lemma_lines_span(t: Seq<char>, l1: int, l2: int)
    requires
        0 <= l1 <= l2,
        l1 < line_count(t),
    ensures
        0 <= line_start(t, l1 as nat) <= lines_end(t, l2) <= t.len(),
{
    lemma_line_start_len(t, l1 as nat);
    if l2 + 1 < line_count(t) {
        lemma_line_start(t, l1 as nat, (l2 + 1) as nat);
        lemma_line_start_len(t, (l2 + 1) as nat);
    }
}

/// Lines `l1..=l2` clamped to the text's lines.
pub open spec fn clamp_lines(t: Seq<char>, l1: int, l2: int) -> (int, int) {
    let last = spec_text_lines(t) - 1;
    (if l1 < last {
        l1
    } else {
        last
    }, if l2 < last {
        l2
    } else {
        last
    })
}

/// After a linewise yank: the lines copied, the cursor moved up to the
/// first of them if it was below, the text as it was.
pub open spec fn yank_lines_post(s0: EditState, s1: EditState, e: OpEffect, l1: int, l2: int) -> bool {
    let t = s0.buffer@.text;
    let (a, b) = clamp_lines(t, l1, l2);
    &&& holds_lines(s1.yank_reg, lines_text(t, a, b))
    &&& s1.cut_reg == s0.cut_reg
    &&& s1.buffer@ == s0.buffer@
    &&& s1.cursor == (if a < s0.cursor.line {
        Cursor { line: a as usize, col: s0.cursor.col }
    } else {
        s0.cursor
    })
    &&& s1.mode == s0.mode
    &&& s1.change_started == s0.change_started
    &&& yank_effect(e, lines_text(t, a, b), FlashRegion::Line(a as usize, b as usize))
}

/// After a linewise delete: the lines cut, removed in their own change,
/// the cursor on the first non-blank of the line now at the first one's
/// place (or the last line).
pub open spec fn delete_lines_post(s0: EditState, s1: EditState, e: OpEffect, l1: int, l2: int) -> bool {
    let t = s0.buffer@.text;
    let (a, b) = clamp_lines(t, l1, l2);
    let (m, committed) = delete_lines_model(s0, line_start(t, a as nat), lines_end(t, b));
    let line = if a < spec_text_lines(m.text) - 1 {
        a
    } else {
        spec_text_lines(m.text) - 1
    };
    &&& holds_lines(s1.cut_reg, lines_text(t, a, b))
    &&& s1.yank_reg == s0.yank_reg
    &&& s1.buffer@ == m
    &&& s1.cursor == (Cursor {
        line: line as usize,
        col: spec_first_non_blank(spec_line_content(m.text, line as nat)) as usize,
    })
    &&& s1.mode == s0.mode
    &&& s1.change_started == (s0.change_started || committed)
    &&& no_effect(e)
}

/// After a linewise change: the lines cut and replaced by the first one's
/// indent, insert mode after it.
pub open spec fn change_lines_post(s0: EditState, s1: EditState, e: OpEffect, l1: int, l2: int) -> bool {
    let t = s0.buffer@.text;
    let (a, b) = clamp_lines(t, l1, l2);
    &&& holds_lines(s1.cut_reg, lines_text(t, a, b))
    &&& s1.yank_reg == s0.yank_reg
    &&& s1.buffer@ == change_lines_model(s0, a, line_start(t, a as nat), lines_end(t, b))
    &&& s1.cursor == (Cursor {
        line: a as usize,
        col: indent_len(spec_line_content(t, a as nat)) as usize,
    })
    &&& s1.mode == Mode::Insert
    &&& s1.change_started == s0.change_started
    &&& no_effect(e)
}

impl EditState {
    /// Removes the chars `start..end` of whole lines in their own change
    /// (keeping one empty line in an emptied text) and puts the cursor on
    /// the first non-blank of line `a` (or the last line).
    fn delete_lines(&mut self, start: usize, end: usize, a: usize)
        requires
            start <= end <= old(self).buffer@.text.len(),
            counters_fit(*old(self)),
        ensures
            ({
                let (m, committed) = delete_lines_model(*old(self), start as int, end as int);
                let line = if a < spec_text_lines(m.text) - 1 {
                    a as int
                } else {
                    spec_text_lines(m.text) - 1
                };
                &&& final(self).buffer@ == m
                &&& final(self).cursor == (Cursor {
                    line: line as usize,
                    col: spec_first_non_blank(spec_line_content(m.text, line as nat)) as usize,
                })
                &&& final(self).change_started == (old(self).change_started || committed)
            }),
            final(self).mode == old(self).mode,
            final(self).goal == old(self).goal,
            final(self).yank_reg == old(self).yank_reg,
            final(self).cut_reg == old(self).cut_reg,
            final(self).last_find == old(self).last_find,
    {
        self.buffer.begin_change(self.cursor);
        self.buffer.remove(start, end);
        let ghost m = self.buffer@;
        proof {
            reveal_strlit("\n");
            assert("\n"@ =~= seq!['\n']);
        }
        if rope_len_chars(&self.buffer.rope) == 0 {
            self.buffer.insert(0, "\n");
        }
        let ghost t3 = self.buffer@.text;
        proof {
            lemma_text_lines_bound(t3);
        }
        let new_last = text_lines(&self.buffer.rope) - 1;
        let line = if a < new_last {
            a
        } else {
            new_last
        };
        let col = first_non_blank(&self.buffer.rope, line);
        self.cursor = Cursor::new(line, col);
        let committed = self.buffer.end_change();
        if committed {
            self.change_started = true;
        }
    }

    /// Replaces the chars `start..end` of lines from `a` on by line `a`'s
    /// indent in a new change, and enters insert mode after the indent.
    fn change_lines(&mut self, start: usize, end: usize, a: usize)
        requires
            start <= end <= old(self).buffer@.text.len(),
            a < line_count(old(self).buffer@.text),
            counters_fit(*old(self)),
        ensures
            final(self).buffer@ == change_lines_model(*old(self), a as int, start as int, end as int),
            final(self).cursor == (Cursor {
                line: a,
                col: indent_len(spec_line_content(old(self).buffer@.text, a as nat)) as usize,
            }),
            final(self).mode == Mode::Insert,
            final(self).change_started == old(self).change_started,
            final(self).goal == old(self).goal,
            final(self).yank_reg == old(self).yank_reg,
            final(self).cut_reg == old(self).cut_reg,
            final(self).last_find == old(self).last_find,
    {
        let ghost t = self.buffer@.text;
        let indent = line_indent(&self.buffer.rope, a);
        let n_indent = chars_of(indent.as_str()).len();
        proof {
            lemma_indent_len(spec_line_content(t, a as nat));
        }
        self.buffer.begin_change(Cursor::new(a, n_indent));
        self.buffer.remove(start, end);
        let mut ins = indent;
        ins.push('\n');
        assert(start <= self.buffer@.text.len());
        self.buffer.insert(start, ins.as_str());
        self.cursor = Cursor::new(a, n_indent);
        self.mode = Mode::Insert;
    }
}

impl EditState {
    /// A linewise operator on lines `l1..=l2` (clamped to the text): yank
    /// copies them; delete removes them in their own change (a text left
    /// empty keeps one empty line) and puts the cursor on the first
    /// non-blank of the line now there; change replaces them by the first
    /// line's indent and enters insert mode after it.
    #[verifier::spinoff_prover]
    #[verifier::rlimit(100)]
    pub fn linewise_op(&mut self, op: Op, l1: usize, l2: usize) -> (e: OpEffect)
        requires
            text_op(op),
            l1 <= l2,
            counters_fit(*old(self)),
        ensures
            lines_post(*old(self), *final(self), e, op, l1 as int, l2 as int),
            keeps_rest(*old(self), *final(self)),
    {
        let ghost t = self.buffer@.text;
        proof {
            lemma_text_lines_bound(t);
        }
        let last = text_lines(&self.buffer.rope) - 1;
        let a = if l1 < last {
            l1
        } else {
            last
        };
        let b = if l2 < last {
            l2
        } else {
            last
        };
        proof {
            lemma_lines_span(t, a as int, b as int);
        }
        let start = rope_line_to_char(&self.buffer.rope, a);
        let end = if b + 1 >= rope_len_lines(&self.buffer.rope) {
            rope_len_chars(&self.buffer.rope)
        } else {
            rope_line_to_char(&self.buffer.rope, b + 1)
        };
        let mut text = chars_between(&self.buffer.rope, start, end);
        if !(text.len() > 0 && text[text.len() - 1] == '\n') {
            text.push('\n');
        }
        assert(text@ == lines_text(t, a as int, b as int));
        let mut effect = OpEffect { clipboard: None, flash: None };
        if op == Op::Yank {
            effect.clipboard = clipboard_of(&text);
            self.yank_reg = Some(Register::Line(string_of(text.as_slice())));
        } else {
            self.cut_reg = Some(Register::Line(string_of(text.as_slice())));
        }
        self.goal = None;
        match op {
            Op::Yank => {
                effect.flash = Some(FlashRegion::Line(a, b));
                if a < self.cursor.line {
                    self.cursor = Cursor::new(a, self.cursor.col);
                }
            },
            Op::Delete => {
                self.delete_lines(start, end, a);
            },
            _ => {
                self.change_lines(start, end, a);
            },
        }
        effect
    }
}

/// The state an operator starts from once its motion resolved: the find
/// the motion makes repeatable is remembered.
pub open spec fn with_find(s: EditState, lf: Option<(FindKind, char)>) -> EditState {
    EditState {
        last_find: if lf is Some {
            lf
        } else {
            s.last_find
        },
        ..s
    }
}

/// After an operator over a motion's target (see [`spec_target`]).
pub open spec fn operator_post(st: EditState, s1: EditState, e: OpEffect, op: Op, motion: Motion, count: Option<usize>) -> bool {
    match spec_target(
        st.buffer@.text,
        st.cursor,
        op,
        motion,
        count,
        st.goal,
        st.last_find,
        TABSTOP as nat,
    ) {
        None => s1 == st && no_effect(e),
        Some((span, lf)) => {
            let s0 = with_find(st, lf);
            &&& s1.last_find == s0.last_find
            &&& match span {
                Span::Lines(l1, l2) => lines_post(s0, s1, e, op, l1 as int, l2 as int),
                Span::Chars(a, b) => chars_post(
                    s0,
                    s1,
                    e,
                    op,
                    a as int,
                    b as int,
                    TABSTOP as nat,
                ),
                Span::Empty(a) => empty_or_change_post(s0, s1, a as int, a as int)
                    && s1.yank_reg == s0.yank_reg && s1.cut_reg
                    == s0.cut_reg && no_effect(e),
                Span::Nothing => s1 == s0 && no_effect(e),
            }
        },
    }
}

impl EditState {
    /// Applies an operator over a motion (`dw`, `c$`, `y}`, ...): nothing
    /// when the motion cannot move; else the operator on the span the
    /// motion covers (see [`spec_target`]).
    pub fn apply_operator(&mut self, op: Op, motion: Motion, count: Option<usize>) -> (e: OpEffect)
        requires
            text_op(op),
            resolvable(motion, count, old(self).cursor, old(self).buffer@.text, TABSTOP as nat),
            counters_fit(*old(self)),
        ensures
            operator_post(*old(self), *final(self), e, op, motion, count),
    {
        let tabstop = crate::config::options().tabstop;
        match operator_target(
            &self.buffer.rope,
            self.cursor,
            op,
            motion,
            count,
            self.goal,
            self.last_find,
            tabstop,
        ) {
            None => OpEffect { clipboard: None, flash: None },
            Some((span, lf)) => {
                if lf.is_some() {
                    self.last_find = lf;
                }
                match span {
                    Span::Lines(l1, l2) => self.linewise_op(op, l1, l2),
                    Span::Chars(a, b) => self.charwise_op(op, a, b, tabstop),
                    Span::Empty(a) => {
                        self.change_range(a, a);
                        OpEffect { clipboard: None, flash: None }
                    },
                    Span::Nothing => OpEffect { clipboard: None, flash: None },
                }
            },
        }
    }
}

} // verus!
