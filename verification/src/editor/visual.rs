//! Operators on a charwise or linewise visual selection: the selection runs
//! from the anchor to the cursor, both ends included.

use vstd::prelude::*;

use crate::config::TABSTOP;
use crate::chars::{chars_of, string_of};
use crate::editing::buffer::{model_begin, model_end, model_insert, model_remove, BufModel, Cursor};
use crate::editing::commands::{Op, Register};
use crate::editing::motion::{abs_of, cursor_ok, text_fits};
use crate::editing::lines::{
    first_non_blank, line_len, spec_first_non_blank, spec_line_content, spec_text_lines, text_lines,
};
use crate::editing::rope::{
    line_count, line_start, rope_len_chars, rope_len_lines, rope_line_to_char, rope_text,
};
use ropey::Rope;
use crate::editor::edits::spec_clamp;
use crate::editor::simple::{toggled, toggled_between};
use crate::editor::operator::{
    chars_post, counters_fit, empty_or_change_post, inclusive_end, keeps_rest, lemma_cursor_abs, lemma_fits_len,
    land, lines_post, no_effect, spec_inclusive_end, spec_land, text_op, EditState, OpEffect,
};
use crate::editor::Mode;
use crate::editor::block::{
    block_ok, copy_segments, plain_text, put_cell, put_segments, seg_texts, seg_total,
};
use crate::editing::rope::lf_only;

verus! {

/// The earlier and the later end of a selection.
pub open spec fn sel_ends(t: Seq<char>, anchor: Cursor, cursor: Cursor) -> (Cursor, Cursor) {
    if abs_of(t, anchor) <= abs_of(t, cursor) {
        (anchor, cursor)
    } else {
        (cursor, anchor)
    }
}

/// A charwise selection's chars: from the earlier end through the cluster
/// under the later one.
pub open spec fn char_selection(t: Seq<char>, anchor: Cursor, cursor: Cursor) -> (int, int) {
    let (first, last) = sel_ends(t, anchor, cursor);
    (abs_of(t, first), spec_inclusive_end(t, last, TABSTOP as nat))
}

/// The state once visual mode is left.
pub open spec fn left_visual(s: EditState) -> EditState {
    EditState { mode: Mode::Normal, ..s }
}

/// After an operator on the selection: charwise, the operator on its chars
/// (an empty one only lets a change enter insert mode); linewise, the
/// operator on its lines.
pub open spec fn visual_operate_post(s0: EditState, s1: EditState, e: OpEffect, anchor: Cursor, linewise: bool, op: Op) -> bool {
    let n = left_visual(s0);
    let t = s0.buffer@.text;
    if linewise {
        let l1 = if anchor.line <= s0.cursor.line {
            anchor.line
        } else {
            s0.cursor.line
        };
        let l2 = if anchor.line <= s0.cursor.line {
            s0.cursor.line
        } else {
            anchor.line
        };
        lines_post(n, s1, e, op, l1 as int, l2 as int) && keeps_rest(n, s1)
    } else {
        let (a, b) = char_selection(t, anchor, s0.cursor);
        if a >= b {
            no_effect(e) && if op == Op::Change {
                &&& empty_or_change_post(n, s1, a, a)
                &&& s1.yank_reg == n.yank_reg
                &&& s1.cut_reg == n.cut_reg
            } else {
                s1 == n
            }
        } else {
            chars_post(n, s1, e, op, a, b, TABSTOP as nat) && keeps_rest(n, s1)
        }
    }
}

/// The lines of a linewise selection, in order.
pub open spec fn sel_lines(anchor: Cursor, cursor: Cursor) -> (int, int) {
    if anchor.line <= cursor.line {
        (anchor.line as int, cursor.line as int)
    } else {
        (cursor.line as int, anchor.line as int)
    }
}

/// The chars visual `~` toggles and where the cursor goes: a charwise
/// selection's chars and its earlier end; a linewise selection's lines
/// (their last break excluded) and the start of the first.
pub open spec fn toggle_target(t: Seq<char>, anchor: Cursor, cursor: Cursor, linewise: bool) -> (int, int, Cursor) {
    if linewise {
        let (l1, l2) = sel_lines(anchor, cursor);
        (
            line_start(t, l1 as nat),
            line_start(t, l2 as nat) + spec_line_content(t, l2 as nat).len(),
            Cursor { line: l1 as usize, col: 0 },
        )
    } else {
        let (a, b) = char_selection(t, anchor, cursor);
        (a, b, sel_ends(t, anchor, cursor).0)
    }
}

/// After visual `~`: the selection toggled in one change, visual mode left,
/// the cursor at the selection's start (kept on the text).
pub open spec fn visual_toggle_post(s0: EditState, s1: EditState, anchor: Cursor, linewise: bool) -> bool {
    let t = s0.buffer@.text;
    let (a, b, c) = toggle_target(t, anchor, s0.cursor, linewise);
    let mb = model_begin(s0.buffer@, s0.cursor);
    let m1 = if a < b {
        model_insert(model_remove(mb, a, b), a, toggled(t.subrange(a, b)))
    } else {
        mb
    };
    let (m, committed) = model_end(m1);
    &&& s1.buffer@ == m
    &&& s1.cursor == spec_clamp(m.text, c, Mode::Normal)
    &&& s1.mode == Mode::Normal
    &&& s1.change_started == (s0.change_started || committed)
    &&& s1.goal == s0.goal
    &&& s1.yank_reg == s0.yank_reg
    &&& s1.cut_reg == s0.cut_reg
    &&& s1.last_find == s0.last_find
}

/// Segments as whole lines: each followed by a break.
pub open spec fn seg_lines(v: Seq<String>) -> Seq<char>
    decreases v.len(),
{
    if v.len() == 0 {
        seq![]
    } else {
        seg_lines(v.drop_last()) + v.last()@.push('\n')
    }
}

/// What replaces a linewise selection: a register's text as whole lines.
pub open spec fn line_paste_text(r: Register) -> Seq<char> {
    match r {
        Register::Line(x) => x@,
        Register::Char(x) => x@.push('\n'),
        Register::Block(v) => seg_lines(v@),
    }
}

/// What replaces a charwise selection: a charwise register's text, or a
/// linewise one's on a line of its own.
pub open spec fn char_paste_text(r: Register) -> Seq<char> {
    match r {
        Register::Line(x) => seq!['\n'] + x@,
        Register::Char(x) => x@,
        Register::Block(_) => seq![],
    }
}

/// Room for the pasted text (and a break) in the layout arithmetic.
pub open spec fn paste_room(s: EditState, r: Register) -> bool {
    (s.buffer@.text.len() + line_paste_text(r).len() + 2) * (3 + TABSTOP) <= usize::MAX
}

/// A linewise selection replaced by `text` (see [`pasted`]).
pub open spec fn pasted_lines(s0: EditState, anchor: Cursor, text: Seq<char>) -> (BufModel, Cursor) {
    let t = s0.buffer@.text;
    let mb = model_begin(s0.buffer@, s0.cursor);
    let (l1, l2) = sel_lines(anchor, s0.cursor);
    let a = line_start(t, l1 as nat);
    let b = if l2 + 1 >= line_count(t) {
        t.len() as int
    } else {
        line_start(t, (l2 + 1) as nat)
    };
    let mr = model_insert(model_remove(mb, a, b), a, text);
    let mf = if mr.text.len() == 0 {
        model_insert(mr, 0, seq!['\n'])
    } else {
        mr
    };
    let last = spec_text_lines(mf.text) - 1;
    let line = if l1 < last {
        l1
    } else {
        last
    };
    (mf, Cursor { line: line as usize, col: spec_first_non_blank(spec_line_content(mf.text, line as nat)) as usize })
}

/// A charwise selection replaced by `text` (see [`pasted`]).
pub open spec fn pasted_chars(s0: EditState, anchor: Cursor, text: Seq<char>, line_reg: bool) -> (BufModel, Cursor) {
    let t = s0.buffer@.text;
    let mb = model_begin(s0.buffer@, s0.cursor);
    let (a, b) = char_selection(t, anchor, s0.cursor);
    let mr = if b > a {
        model_remove(mb, a, b)
    } else {
        mb
    };
    let mi = model_insert(mr, a, text);
    let at = if line_reg {
        a + 1
    } else if a + text.len() >= 1 {
        a + text.len() - 1
    } else {
        0
    };
    (mi, spec_land(mi.text, at, TABSTOP as nat))
}

/// The buffer and the cursor a visual paste leaves, before the change
/// closes: the selection replaced by the register's text; charwise, the
/// cursor on the pasted text's last char (on the first pasted line for
/// a linewise register); linewise, on the first non-blank of the first
/// pasted line (a text emptied altogether keeps one empty line).
pub open spec fn pasted(s0: EditState, anchor: Cursor, linewise: bool, r: Register) -> (BufModel, Cursor) {
    if linewise {
        pasted_lines(s0, anchor, line_paste_text(r))
    } else {
        match r {
            Register::Block(v) => pasted_block(s0, anchor, seg_texts(v@)),
            _ => pasted_chars(s0, anchor, char_paste_text(r), r is Line),
        }
    }
}

/// A charwise selection replaced by a block register: the selection
/// removed, the cursor landing where it began, the segments put there as
/// a block (see [`put_segments`]).
pub open spec fn pasted_block(s0: EditState, anchor: Cursor, segs: Seq<Seq<char>>) -> (BufModel, Cursor) {
    let t = s0.buffer@.text;
    let mb = model_begin(s0.buffer@, s0.cursor);
    let (a, b) = char_selection(t, anchor, s0.cursor);
    let mr = if b > a {
        model_remove(mb, a, b)
    } else {
        mb
    };
    let c = spec_land(mr.text, a, TABSTOP as nat);
    let mf = if mr.read_only {
        mr
    } else {
        put_segments(mr, segs, c.line as nat, put_cell(mr.text, c, false), segs.len())
    };
    (mf, c)
}

/// Room for a block put anywhere in a text: LF-only, segments without
/// line breaks, and the counters and the layout arithmetic with room for
/// any line the put may start on.
pub open spec fn block_room(m: BufModel, segs: Seq<Seq<char>>) -> bool {
    let n = segs.len();
    let len = m.text.len();
    let k = len + n + 1 + 14 * len;
    &&& lf_only(m.text)
    &&& forall|i: int| 0 <= i < n ==> plain_text(#[trigger] segs[i])
    &&& (len + n * k + seg_total(segs, n as int)) * (3 + TABSTOP) <= usize::MAX
    &&& m.revision + 1 + n * (len + n + 3) < u64::MAX
}

/// What `p` on a charwise selection asks of a block register: room for
/// the put (see [`block_room`]); on a read-only buffer, where nothing is
/// written, the line of every non-empty segment must already exist.
pub open spec fn block_paste_ok(s: EditState, anchor: Cursor, r: Register) -> bool {
    match r {
        Register::Block(v) => {
            let segs = seg_texts(v@);
            let t = s.buffer@.text;
            if s.buffer@.read_only {
                let c = spec_land(t, char_selection(t, anchor, s.cursor).0, TABSTOP as nat);
                forall|i: int|
                    0 <= i < segs.len() && #[trigger] segs[i].len() > 0 ==> c.line + i < spec_text_lines(t)
            } else {
                block_room(s.buffer@, segs)
            }
        },
        _ => true,
    }
}

/// Room for a block put in a text carries over to a shorter one.
proof fn lemma_block_room(m0: BufModel, m1: BufModel, c: Cursor, segs: Seq<Seq<char>>)
    requires
        block_room(m0, segs),
        m1.text.len() <= m0.text.len(),
        m1.revision <= m0.revision + 1,
        c.line <= m0.text.len(),
        lf_only(m1.text),
        !m1.read_only,
    ensures
        block_ok(m1, c, segs),
{
    let n = segs.len();
    let len0 = m0.text.len();
    let len1 = m1.text.len();
    let k0 = len0 + n + 1 + 14 * len0;
    let k1 = c.line + n + 1 + 14 * len1;
    assert(n * k1 <= n * k0) by (nonlinear_arith)
        requires
            k1 <= k0,
    ;
    assert(n * (c.line + n + 3) <= n * (len0 + n + 3)) by (nonlinear_arith)
        requires
            c.line <= len0,
    ;
    assert((len1 + n * k1 + seg_total(segs, n as int)) * (3 + TABSTOP) <= (len0 + n * k0 + seg_total(
        segs,
        n as int,
    )) * (3 + TABSTOP)) by (nonlinear_arith)
        requires
            len1 + n * k1 <= len0 + n * k0,
    ;
}

/// After a visual paste: the selection replaced by the yank register in
/// one change, no register touched; without a yank register visual mode is
/// just left.
pub open spec fn visual_paste_post(s0: EditState, s1: EditState, anchor: Cursor, linewise: bool) -> bool {
    match s0.yank_reg {
        None => s1 == left_visual(s0),
        Some(r) => {
            let (m1, c) = pasted(s0, anchor, linewise, r);
            let (m, committed) = model_end(m1);
            &&& s1.buffer@ == m
            &&& s1.cursor == spec_clamp(m.text, c, Mode::Normal)
            &&& s1.mode == Mode::Normal
            &&& s1.goal is None
            &&& s1.change_started == (s0.change_started || committed)
            &&& s1.yank_reg == s0.yank_reg
            &&& s1.cut_reg == s0.cut_reg
            &&& s1.last_find == s0.last_find
        },
    }
}

/// A copy of a string.
fn copy_string(x: &String) -> (c: String)
    ensures
        c@ == x@,
{
    let v = chars_of(x.as_str());
    string_of(v.as_slice())
}

/// The text a linewise selection is replaced by (see [`line_paste_text`]).
fn line_paste_of(r: &Register) -> (s: String)
    ensures
        s@ == line_paste_text(*r),
{
    match r {
        Register::Line(x) => copy_string(x),
        Register::Char(x) => {
            let mut s = copy_string(x);
            s.push('\n');
            s
        },
        Register::Block(v) => {
            let mut s = String::new();
            let mut i: usize = 0;
            while i < v.len()
                invariant
                    i <= v@.len(),
                    s@ == seg_lines(v@.take(i as int)),
                decreases v@.len() - i,
            {
                crate::chars::push_str(&mut s, v[i].as_str());
                s.push('\n');
                i += 1;
                assert(v@.take(i as int).drop_last() =~= v@.take(i - 1));
            }
            assert(v@.take(v@.len() as int) =~= v@);
            s
        },
    }
}

/// The text a charwise selection is replaced by (see [`char_paste_text`]).
fn char_paste_of(r: &Register) -> (s: String)
    ensures
        s@ == char_paste_text(*r),
{
    match r {
        Register::Line(x) => {
            let mut s = String::new();
            s.push('\n');
            crate::chars::push_str(&mut s, x.as_str());
            s
        },
        Register::Char(x) => copy_string(x),
        Register::Block(_) => String::new(),
    }
}

/// Where visual `~` acts (see [`toggle_target`]).
#[verifier::spinoff_prover]
fn toggle_target_of(rope: &Rope, anchor: Cursor, cursor: Cursor, linewise: bool) -> (r: (usize, usize, Cursor))
    requires
        cursor_ok(rope_text(*rope), cursor),
        cursor_ok(rope_text(*rope), anchor),
        text_fits(rope_text(*rope), TABSTOP as nat),
    ensures
        toggle_target(rope_text(*rope), anchor, cursor, linewise) == (r.0 as int, r.1 as int, r.2),
        r.0 <= rope_text(*rope).len(),
        r.1 <= rope_text(*rope).len(),
{
    let ghost t = rope_text(*rope);
    proof {
        lemma_cursor_abs(t, anchor);
        lemma_cursor_abs(t, cursor);
        lemma_fits_len(t, TABSTOP as nat);
    }
    if linewise {
        let (l1, l2) = if anchor.line <= cursor.line {
            (anchor.line, cursor.line)
        } else {
            (cursor.line, anchor.line)
        };
        proof {
            lemma_cursor_abs(t, Cursor { line: l2, col: 0 });
        }
        let a = rope_line_to_char(rope, l1);
        let b = rope_line_to_char(rope, l2) + line_len(rope, l2);
        (a, b, Cursor::new(l1, 0))
    } else {
        let aa = rope_line_to_char(rope, anchor.line) + anchor.col;
        let ca = rope_line_to_char(rope, cursor.line) + cursor.col;
        let (first, last) = if aa <= ca {
            (anchor, cursor)
        } else {
            (cursor, anchor)
        };
        let a = if aa <= ca {
            aa
        } else {
            ca
        };
        (a, inclusive_end(rope, last, TABSTOP), first)
    }
}

impl EditState {
    /// `d`, `c`, `y` on a charwise (`linewise == false`) or linewise
    /// selection from `anchor` to the cursor; visual mode is left first.
    pub fn visual_operate(&mut self, anchor: Cursor, linewise: bool, op: Op) -> (e: OpEffect)
        requires
            text_op(op),
            cursor_ok(old(self).buffer@.text, old(self).cursor),
            cursor_ok(old(self).buffer@.text, anchor),
            counters_fit(*old(self)),
            text_fits(old(self).buffer@.text, TABSTOP as nat),
        ensures
            visual_operate_post(*old(self), *final(self), e, anchor, linewise, op),
    {
        let ghost t = self.buffer@.text;
        self.mode = Mode::Normal;
        if linewise {
            let (l1, l2) = if anchor.line <= self.cursor.line {
                (anchor.line, self.cursor.line)
            } else {
                (self.cursor.line, anchor.line)
            };
            return self.linewise_op(op, l1, l2);
        }
        proof {
            lemma_cursor_abs(t, anchor);
            lemma_cursor_abs(t, self.cursor);
            lemma_fits_len(t, TABSTOP as nat);
        }
        let aa = rope_line_to_char(&self.buffer.rope, anchor.line) + anchor.col;
        let ca = rope_line_to_char(&self.buffer.rope, self.cursor.line) + self.cursor.col;
        let (first, last) = if aa <= ca {
            (anchor, self.cursor)
        } else {
            (self.cursor, anchor)
        };
        let start = if aa <= ca {
            aa
        } else {
            ca
        };
        let end = inclusive_end(&self.buffer.rope, last, TABSTOP);
        if start >= end {
            if op == Op::Change {
                self.change_range(start, start);
            }
            OpEffect { clipboard: None, flash: None }
        } else {
            self.charwise_op(op, start, end, TABSTOP)
        }
    }

    /// `~` on a charwise or linewise selection.
    #[verifier::spinoff_prover]
    #[verifier::rlimit(40)]
    pub fn visual_toggle_case(&mut self, anchor: Cursor, linewise: bool)
        requires
            cursor_ok(old(self).buffer@.text, old(self).cursor),
            cursor_ok(old(self).buffer@.text, anchor),
            counters_fit(*old(self)),
            text_fits(old(self).buffer@.text, TABSTOP as nat),
        ensures
            visual_toggle_post(*old(self), *final(self), anchor, linewise),
    {
        let ghost t = self.buffer@.text;
        self.mode = Mode::Normal;
        let (start, end, target) = toggle_target_of(&self.buffer.rope, anchor, self.cursor, linewise);
        self.buffer.begin_change(self.cursor);
        if start < end {
            let flipped = toggled_between(&self.buffer.rope, start, end);
            self.buffer.remove(start, end);
            self.buffer.insert(start, flipped.as_str());
        }
        self.cursor = target;
        let committed = self.buffer.end_change();
        if committed {
            self.change_started = true;
        }
        proof {
            assert(self.buffer@.text.len() == t.len());
        }
        self.clamp_cursor();
    }

    /// `p`/`P` on a charwise or linewise selection: the selection is
    /// replaced by the yank register, which keeps its text.
    #[verifier::spinoff_prover]
    #[verifier::rlimit(40)]
    pub fn visual_paste(&mut self, anchor: Cursor, linewise: bool)
        requires
            cursor_ok(old(self).buffer@.text, old(self).cursor),
            cursor_ok(old(self).buffer@.text, anchor),
            counters_fit(*old(self)),
            text_fits(old(self).buffer@.text, TABSTOP as nat),
            old(self).yank_reg matches Some(r) ==> paste_room(*old(self), r) && (linewise || block_paste_ok(
                *old(self),
                anchor,
                r,
            )),
        ensures
            visual_paste_post(*old(self), *final(self), anchor, linewise),
    {
        let ghost t = self.buffer@.text;
        let (line_text, char_text, line_reg) = match &self.yank_reg {
            None => {
                self.mode = Mode::Normal;
                return;
            },
            Some(r) => (line_paste_of(r), char_paste_of(r), matches!(r, Register::Line(_))),
        };
        let segs = match &self.yank_reg {
            Some(Register::Block(v)) => Some(copy_segments(v)),
            _ => None,
        };
        let ghost r = self.yank_reg->0;
        assert(char_text@.len() <= line_text@.len() + 1);
        if linewise {
            self.paste_lines(anchor, &line_text);
        } else if let Some(segs) = segs {
            self.paste_block_chars(anchor, &segs);
        } else {
            let room = chars_of(line_text.as_str()).len();
            self.paste_chars(anchor, &char_text, line_reg, room);
        }
        self.mode = Mode::Normal;
        self.goal = None;
        let committed = self.buffer.end_change();
        if committed {
            self.change_started = true;
        }
        proof {
            if linewise || !(r is Block) {
                assert(self.buffer@.text.len() <= t.len() + line_text@.len() + 1);
                assert(self.buffer@.text.len() * (3 + TABSTOP) <= usize::MAX) by (nonlinear_arith)
                    requires
                        self.buffer@.text.len() <= t.len() + line_text@.len() + 1,
                        (t.len() + line_text@.len() + 2) * (3 + TABSTOP) <= usize::MAX,
                ;
            }
        }
        self.clamp_cursor();
    }

    /// The selection's lines replaced by `text`, in a change left open.
    #[verifier::spinoff_prover]
    #[verifier::rlimit(40)]
    fn paste_lines(&mut self, anchor: Cursor, text: &String)
        requires
            cursor_ok(old(self).buffer@.text, old(self).cursor),
            cursor_ok(old(self).buffer@.text, anchor),
            counters_fit(*old(self)),
            text_fits(old(self).buffer@.text, TABSTOP as nat),
            (old(self).buffer@.text.len() + text@.len() + 2) * (3 + TABSTOP) <= usize::MAX,
        ensures
            (final(self).buffer@, final(self).cursor) == pasted_lines(*old(self), anchor, text@),
            final(self).buffer@.text.len() <= old(self).buffer@.text.len() + text@.len() + 1,
            final(self).mode == old(self).mode,
            final(self).goal == old(self).goal,
            final(self).yank_reg == old(self).yank_reg,
            final(self).cut_reg == old(self).cut_reg,
            final(self).last_find == old(self).last_find,
            final(self).change_started == old(self).change_started,
    {
        let ghost t = self.buffer@.text;
        proof {
            lemma_cursor_abs(t, anchor);
            lemma_cursor_abs(t, self.cursor);
            lemma_fits_len(t, TABSTOP as nat);
            crate::editing::rope::lemma_breaks_bound(t, t.len() as int);
        }
        self.buffer.begin_change(self.cursor);
        let (l1, l2) = if anchor.line <= self.cursor.line {
            (anchor.line, self.cursor.line)
        } else {
            (self.cursor.line, anchor.line)
        };
        proof {
            crate::editing::rope::lemma_line_start(t, l1 as nat, (l2 + 1) as nat);
            crate::editing::rope::lemma_line_start(t, (l2 + 1) as nat, (l2 + 1) as nat);
        }
        let a = rope_line_to_char(&self.buffer.rope, l1);
        let b = if l2 + 1 >= rope_len_lines(&self.buffer.rope) {
            rope_len_chars(&self.buffer.rope)
        } else {
            rope_line_to_char(&self.buffer.rope, l2 + 1)
        };
        self.buffer.remove(a, b);
        self.buffer.insert(a, text.as_str());
        if rope_len_chars(&self.buffer.rope) == 0 {
            let mut nl = String::new();
            nl.push('\n');
            assert(nl@ =~= seq!['\n']);
            self.buffer.insert(0, nl.as_str());
        }
        let ghost t2 = self.buffer@.text;
        proof {
            crate::editing::lines::lemma_text_lines_bound(t2);
        }
        let last = text_lines(&self.buffer.rope) - 1;
        let line = if l1 < last {
            l1
        } else {
            last
        };
        self.cursor = Cursor::new(line, first_non_blank(&self.buffer.rope, line));
    }

    /// The selection's chars replaced by `text`, in a change left open.
    #[verifier::spinoff_prover]
    #[verifier::rlimit(40)]
    fn paste_chars(&mut self, anchor: Cursor, text: &String, line_reg: bool, room: usize)
        requires
            cursor_ok(old(self).buffer@.text, old(self).cursor),
            cursor_ok(old(self).buffer@.text, anchor),
            counters_fit(*old(self)),
            text_fits(old(self).buffer@.text, TABSTOP as nat),
            text@.len() <= room + 1,
            (old(self).buffer@.text.len() + room + 2) * (3 + TABSTOP) <= usize::MAX,
        ensures
            (final(self).buffer@, final(self).cursor) == pasted_chars(*old(self), anchor, text@, line_reg),
            final(self).buffer@.text.len() <= old(self).buffer@.text.len() + room + 1,
            final(self).mode == old(self).mode,
            final(self).goal == old(self).goal,
            final(self).yank_reg == old(self).yank_reg,
            final(self).cut_reg == old(self).cut_reg,
            final(self).last_find == old(self).last_find,
            final(self).change_started == old(self).change_started,
    {
        let ghost t = self.buffer@.text;
        proof {
            lemma_cursor_abs(t, anchor);
            lemma_cursor_abs(t, self.cursor);
            lemma_fits_len(t, TABSTOP as nat);
        }
        self.buffer.begin_change(self.cursor);
        let aa = rope_line_to_char(&self.buffer.rope, anchor.line) + anchor.col;
        let ca = rope_line_to_char(&self.buffer.rope, self.cursor.line) + self.cursor.col;
        let last = if aa <= ca {
            self.cursor
        } else {
            anchor
        };
        let a = if aa <= ca {
            aa
        } else {
            ca
        };
        let b = inclusive_end(&self.buffer.rope, last, TABSTOP);
        if b > a {
            self.buffer.remove(a, b);
        }
        self.buffer.insert(a, text.as_str());
        let n = chars_of(text.as_str()).len();
        assert(a + n <= usize::MAX) by (nonlinear_arith)
            requires
                a <= t.len(),
                n <= room + 1,
                (t.len() + room + 2) * (3 + TABSTOP) <= usize::MAX,
        ;
        let at = if line_reg {
            a + 1
        } else if a + n >= 1 {
            a + n - 1
        } else {
            0
        };
        proof {
            assert(self.buffer@.text.len() <= t.len() + text@.len());
            assert(self.buffer@.text.len() * (3 + TABSTOP) <= usize::MAX) by (nonlinear_arith)
                requires
                    self.buffer@.text.len() <= t.len() + room + 1,
                    (t.len() + room + 2) * (3 + TABSTOP) <= usize::MAX,
            ;
        }
        self.cursor = land(&self.buffer.rope, at, TABSTOP);
    }

    /// A charwise selection replaced by a block register (see
    /// [`pasted_block`]); the change stays open.
    #[verifier::spinoff_prover]
    #[verifier::rlimit(40)]
    fn paste_block_chars(&mut self, anchor: Cursor, segs: &Vec<String>)
        requires
            cursor_ok(old(self).buffer@.text, old(self).cursor),
            cursor_ok(old(self).buffer@.text, anchor),
            counters_fit(*old(self)),
            text_fits(old(self).buffer@.text, TABSTOP as nat),
            block_paste_ok(*old(self), anchor, Register::Block(*segs)),
        ensures
            (final(self).buffer@, final(self).cursor) == pasted_block(*old(self), anchor, seg_texts(segs@)),
            final(self).mode == old(self).mode,
            final(self).goal == old(self).goal,
            final(self).yank_reg == old(self).yank_reg,
            final(self).cut_reg == old(self).cut_reg,
            final(self).last_find == old(self).last_find,
            final(self).change_started == old(self).change_started,
            text_fits(final(self).buffer@.text, TABSTOP as nat),
    {
        let ghost t = self.buffer@.text;
        let ghost sv = seg_texts(segs@);
        proof {
            lemma_cursor_abs(t, anchor);
            lemma_cursor_abs(t, self.cursor);
            lemma_fits_len(t, TABSTOP as nat);
        }
        self.buffer.begin_change(self.cursor);
        let aa = rope_line_to_char(&self.buffer.rope, anchor.line) + anchor.col;
        let ca = rope_line_to_char(&self.buffer.rope, self.cursor.line) + self.cursor.col;
        let last = if aa <= ca {
            self.cursor
        } else {
            anchor
        };
        let a = if aa <= ca {
            aa
        } else {
            ca
        };
        let b = inclusive_end(&self.buffer.rope, last, TABSTOP);
        if b > a {
            self.buffer.remove(a, b);
        }
        let ghost t1 = self.buffer@.text;
        proof {
            assert(t1.len() <= t.len());
            assert(t1.len() * (3 + TABSTOP) <= usize::MAX) by (nonlinear_arith)
                requires
                    t1.len() <= t.len(),
                    t.len() * (3 + TABSTOP) <= usize::MAX,
            ;
        }
        self.cursor = land(&self.buffer.rope, a, TABSTOP);
        if !self.buffer.read_only {
            proof {
                if b > a {
                    assert(t1 =~= t.take(a as int) + t.skip(b as int));
                    assert forall|i: int| 0 <= i < t1.len() implies !crate::editing::rope::odd_break(
                        #[trigger] t1[i],
                    ) by {
                        if i < a {
                            assert(t1[i] == t[i]);
                        } else {
                            assert(t1[i] == t[i + (b - a)]);
                        }
                    };
                }
                crate::editing::rope::lemma_breaks_bound(t1, t1.len() as int);
                lemma_block_room(old(self).buffer@, self.buffer@, self.cursor, sv);
            }
            self.put_block(segs, false);
        }
    }
}

} // verus!
