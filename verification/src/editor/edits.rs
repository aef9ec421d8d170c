//! Normal-mode edits that need no motion: putting a register (`p`/`P`),
//! deleting clusters (`x`/`X`), replacing them (`r`), and keeping the
//! cursor on the text.

use vstd::prelude::*;

use crate::chars::chars_of;
use crate::config::TABSTOP;
use crate::editing::buffer::{
    model_begin, model_end, model_insert, model_redo, model_remove, model_undo, BufModel, Cursor,
};
use crate::editing::commands::Register;
use crate::editor::block::{block_put_ok, block_put_post, copy_segments, seg_texts};
use crate::editing::lines::{
    first_non_blank, lemma_text_lines_bound, line_content, line_len, max_normal_col,
    spec_first_non_blank, spec_line_content, spec_max_normal_col, spec_text_lines, text_lines,
};
use crate::editing::motion::{
    cursor_ok, lemma_content_fits, resolvable, resolve, spec_resolve, text_fits, Motion, MotionCtx,
};
use crate::editing::rope::{
    is_break_end, lemma_line_start_len, lf_breaks, line_count, line_start, rope_char,
    rope_len_chars, rope_len_lines, rope_line_to_char, rope_text,
};
use ropey::Rope;
use crate::editing::text::{first_at_col, gr_index_at_col, line_graphemes, spec_line_graphemes, Gr};
use crate::editor::operator::{
    chars_between, counters_fit, holds_chars, land, lemma_cursor_abs, lemma_fits_len, spec_land,
    EditState,
};
use crate::editor::Mode;

verus! {

/// The cursor kept on the text: on the last line at most, and within the
/// line (at most its last normal-mode column outside insert modes).
pub open spec fn spec_clamp(t: Seq<char>, c: Cursor, mode: Mode) -> Cursor {
    let last = spec_text_lines(t) - 1;
    let line = if c.line > last {
        last
    } else {
        c.line as int
    };
    let content = spec_line_content(t, line as nat);
    let limit = if mode is Insert || mode is Replace {
        content.len() as int
    } else {
        spec_max_normal_col(content, TABSTOP as nat)
    };
    Cursor {
        line: line as usize,
        col: if c.col > limit {
            limit as usize
        } else {
            c.col
        },
    }
}

/// `s` written `n` times.
pub open spec fn repeat(s: Seq<char>, n: nat) -> Seq<char>
    decreases n,
{
    if n == 0 {
        seq![]
    } else {
        repeat(s, (n - 1) as nat) + s
    }
}

fn repeat_chars(s: &Vec<char>, n: usize) -> (r: Vec<char>)
    requires
        s@.len() * n <= usize::MAX,
    ensures
        r@ == repeat(s@, n as nat),
        r@.len() == s@.len() * n,
{
    let mut r: Vec<char> = Vec::new();
    let mut k: usize = 0;
    while k < n
        invariant
            k <= n,
            s@.len() * n <= usize::MAX,
            r@ == repeat(s@, k as nat),
            r@.len() == s@.len() * k,
        decreases n - k,
    {
        assert(s@.len() * (k + 1) <= s@.len() * n) by (nonlinear_arith)
            requires
                k + 1 <= n,
        ;
        assert(s@.len() * (k + 1) == s@.len() * k + s@.len()) by (nonlinear_arith);
        let mut i: usize = 0;
        let ghost r0 = r@;
        while i < s.len()
            invariant
                i <= s@.len(),
                r@ == r0 + s@.take(i as int),
                r0.len() + s@.len() <= usize::MAX,
            decreases s@.len() - i,
        {
            r.push(s[i]);
            i = i + 1;
            assert(r@ =~= r0 + s@.take(i as int));
        }
        assert(s@.take(s@.len() as int) =~= s@);
        k = k + 1;
    }
    r
}

/// Where a charwise put lands its text in the cursor's line: after the
/// cluster under the cursor (the line's end past it) for `p`, at the
/// cursor for `P`.
pub open spec fn put_col(t: Seq<char>, c: Cursor, after: bool) -> int {
    let content = spec_line_content(t, c.line as nat);
    let grs = spec_line_graphemes(content, TABSTOP as nat);
    if after {
        match first_at_col(grs, c.col as int, 0) {
            Some(i) => grs[i].char_off + grs[i].chars,
            None => content.len() as int,
        }
    } else {
        c.col as int
    }
}

/// Where a linewise put lands: before the line after the cursor's for `p`
/// (the end past the last line), before the cursor's line for `P`.
pub open spec fn put_line(t: Seq<char>, c: Cursor, after: bool) -> int {
    if after {
        c.line + 1
    } else {
        c.line as int
    }
}

pub open spec fn put_line_at(t: Seq<char>, line: int) -> int {
    if line > spec_text_lines(t) - 1 {
        t.len() as int
    } else {
        line_start(t, line as nat)
    }
}

/// The buffer after putting `text` at `at` in its own change.
pub open spec fn put_model(m: BufModel, cursor: Cursor, at: int, text: Seq<char>) -> (BufModel, bool) {
    model_end(model_insert(model_begin(m, cursor), at, text))
}

/// After putting a register's text `count` times: inserted in its own
/// change; the cursor on the first non-blank of the first put line
/// (linewise) or on the last put char (charwise).
pub open spec fn put_post(s0: EditState, s1: EditState, text: Seq<char>, linewise: bool, after: bool, count: nat) -> bool {
    put_post_with(s0, s1, repeat(text, count), linewise, after)
}

/// After putting `rep` (see [`put_post`]).
pub open spec fn put_post_with(s0: EditState, s1: EditState, rep: Seq<char>, linewise: bool, after: bool) -> bool {
    let t = s0.buffer@.text;
    let at = if linewise {
        put_line_at(t, put_line(t, s0.cursor, after))
    } else {
        line_start(t, s0.cursor.line as nat) + put_col(t, s0.cursor, after)
    };
    let (m, committed) = put_model(s0.buffer@, s0.cursor, at, rep);
    let t2 = m.text;
    let line = if put_line(t, s0.cursor, after) < spec_text_lines(t2) - 1 {
        put_line(t, s0.cursor, after)
    } else {
        spec_text_lines(t2) - 1
    };
    &&& s1.buffer@ == m
    &&& s1.cursor == (if linewise {
        Cursor {
            line: line as usize,
            col: spec_first_non_blank(spec_line_content(t2, line as nat)) as usize,
        }
    } else {
        spec_land(
            t2,
            if at + rep.len() >= 1 {
                at + rep.len() - 1
            } else {
                0
            },
            TABSTOP as nat,
        )
    })
    &&& s1.goal is None
    &&& s1.change_started == (s0.change_started || committed)
    &&& s1.mode == s0.mode
    &&& s1.yank_reg == s0.yank_reg
    &&& s1.cut_reg == s0.cut_reg
    &&& s1.last_find == s0.last_find
}

/// The register's text and whether it is linewise, for the ones `p` can
/// put as text.
pub open spec fn reg_text(r: Register) -> (Seq<char>, bool) {
    match r {
        Register::Char(s) => (s@, false),
        Register::Line(s) => (s@, true),
        Register::Block(_) => (seq![], false),
    }
}

/// What putting register `r` `count` times asks (a block register is put
/// once, see [`block_put_ok`]).
pub open spec fn reg_put_ok(s: EditState, r: Register, count: nat) -> bool {
    match r {
        Register::Block(v) => block_put_ok(s, seg_texts(v@)),
        _ => put_fits(s, reg_text(r).0, count),
    }
}

/// After putting register `r` `count` times: its text (see [`put_post`]),
/// or its segments as a block (see [`block_put_post`]).
pub open spec fn reg_put_post(s0: EditState, s1: EditState, r: Register, after: bool, count: nat) -> bool {
    match r {
        Register::Block(v) => block_put_post(s0, s1, seg_texts(v@), after),
        _ => put_post(s0, s1, reg_text(r).0, reg_text(r).1, after, count),
    }
}

/// A put of `text` repeated `count` times fits the layout arithmetic.
pub open spec fn put_fits(s: EditState, text: Seq<char>, count: nat) -> bool {
    text_fits(s.buffer@.text + repeat(text, count), TABSTOP as nat) && text.len() * count
        <= usize::MAX
}

proof fn lemma_repeat_len(s: Seq<char>, n: nat)
    ensures
        repeat(s, n).len() == s.len() * n,
    decreases n,
{
    if n == 0 {
        assert(s.len() * 0 == 0) by (nonlinear_arith);
    } else {
        lemma_repeat_len(s, (n - 1) as nat);
        assert(s.len() * n == s.len() * (n - 1) + s.len()) by (nonlinear_arith)
            requires
                n >= 1,
        ;
    }
}

proof fn lemma_fits_smaller(t: Seq<char>, u: Seq<char>)
    requires
        text_fits(t, TABSTOP as nat),
        u.len() <= t.len(),
    ensures
        text_fits(u, TABSTOP as nat),
{
    assert(u.len() * (3 + TABSTOP) <= t.len() * (3 + TABSTOP)) by (nonlinear_arith)
        requires
            u.len() <= t.len(),
    ;
}

impl EditState {
    /// Keeps the cursor on the text (see [`spec_clamp`]).
    pub fn clamp_cursor(&mut self)
        requires
            text_fits(old(self).buffer@.text, TABSTOP as nat),
        ensures
            final(self).cursor == spec_clamp(old(self).buffer@.text, old(self).cursor, old(self).mode),
            final(self).buffer == old(self).buffer,
            final(self).mode == old(self).mode,
            final(self).goal == old(self).goal,
            final(self).yank_reg == old(self).yank_reg,
            final(self).cut_reg == old(self).cut_reg,
            final(self).last_find == old(self).last_find,
            final(self).change_started == old(self).change_started,
    {
        let ghost t = self.buffer@.text;
        proof {
            lemma_text_lines_bound(t);
        }
        let last = text_lines(&self.buffer.rope) - 1;
        if self.cursor.line > last {
            self.cursor.line = last;
        }
        proof {
            lemma_content_fits(t, self.cursor.line as nat, TABSTOP as nat);
        }
        let limit = match self.mode {
            Mode::Insert | Mode::Replace => line_len(&self.buffer.rope, self.cursor.line),
            _ => max_normal_col(&self.buffer.rope, self.cursor.line, TABSTOP),
        };
        if self.cursor.col > limit {
            self.cursor.col = limit;
        }
    }

    /// Puts `text` (linewise or charwise) `count` times before or after the
    /// cursor, in its own change (see [`put_post`]).
    fn put_text(&mut self, text: &Vec<char>, linewise: bool, after: bool, count: usize)
        requires
            counters_fit(*old(self)),
            cursor_ok(old(self).buffer@.text, old(self).cursor),
            put_fits(*old(self), text@, count as nat),
        ensures
            put_post(*old(self), *final(self), text@, linewise, after, count as nat),
    {
        let ghost t = self.buffer@.text;
        proof {
            lemma_repeat_len(text@, count as nat);
            lemma_fits_smaller(t + repeat(text@, count as nat), t);
            lemma_fits_len(t + repeat(text@, count as nat), TABSTOP as nat);
        }
        let rep = repeat_chars(text, count);
        if linewise {
            self.put_lines(&rep, after);
        } else {
            self.put_chars(&rep, after);
        }
    }

    /// Puts `rep` linewise before the cursor's line or the next one.
    #[verifier::spinoff_prover]
    #[verifier::rlimit(60)]
    fn put_lines(&mut self, rep: &Vec<char>, after: bool)
        requires
            counters_fit(*old(self)),
            cursor_ok(old(self).buffer@.text, old(self).cursor),
            (old(self).buffer@.text + rep@).len() * 3 <= usize::MAX,
        ensures
            put_post_with(*old(self), *final(self), rep@, true, after),
    {
        let ghost t = self.buffer@.text;
        proof {
            lemma_text_lines_bound(t);
            lemma_cursor_abs(t, self.cursor);
            crate::editing::rope::lemma_breaks_bound(t, t.len() as int);
        }
        self.goal = None;
        self.buffer.begin_change(self.cursor);
        let rep_s = crate::chars::string_of(rep.as_slice());
        let last = text_lines(&self.buffer.rope) - 1;
        let line = if after {
            self.cursor.line + 1
        } else {
            self.cursor.line
        };
        let at = if line > last {
            rope_len_chars(&self.buffer.rope)
        } else {
            proof {
                lemma_line_start_len(t, line as nat);
            }
            rope_line_to_char(&self.buffer.rope, line)
        };
        self.buffer.insert(at, rep_s.as_str());
        let ghost t2 = self.buffer@.text;
        proof {
            lemma_text_lines_bound(t2);
        }
        let last2 = text_lines(&self.buffer.rope) - 1;
        let line2 = if line < last2 {
            line
        } else {
            last2
        };
        let col = first_non_blank(&self.buffer.rope, line2);
        self.cursor = Cursor::new(line2, col);
        let committed = self.buffer.end_change();
        if committed {
            self.change_started = true;
        }
    }

    /// Puts `rep` charwise at or after the cursor's cluster.
    #[verifier::spinoff_prover]
    #[verifier::rlimit(60)]
    fn put_chars(&mut self, rep: &Vec<char>, after: bool)
        requires
            counters_fit(*old(self)),
            cursor_ok(old(self).buffer@.text, old(self).cursor),
            text_fits(old(self).buffer@.text + rep@, TABSTOP as nat),
            text_fits(old(self).buffer@.text, TABSTOP as nat),
            (old(self).buffer@.text + rep@).len() * 3 <= usize::MAX,
        ensures
            put_post_with(*old(self), *final(self), rep@, false, after),
    {
        let ghost t = self.buffer@.text;
        proof {
            lemma_cursor_abs(t, self.cursor);
        }
        self.goal = None;
        self.buffer.begin_change(self.cursor);
        let rep_s = crate::chars::string_of(rep.as_slice());
        let base = rope_line_to_char(&self.buffer.rope, self.cursor.line);
        proof {
            lemma_content_fits(t, self.cursor.line as nat, TABSTOP as nat);
        }
        let content = line_content(&self.buffer.rope, self.cursor.line);
        let grs = line_graphemes(content.as_str(), TABSTOP);
        let col = if after {
            match gr_index_at_col(grs.as_slice(), self.cursor.col) {
                Some(i) => {
                    assert(grs@[i as int].char_off + grs@[i as int].chars <= content@.len());
                    grs[i].char_off + grs[i].chars
                },
                None => line_len(&self.buffer.rope, self.cursor.line),
            }
        } else {
            self.cursor.col
        };
        assert(self.cursor == old(self).cursor);
        assert(rope_text(self.buffer.rope) == t);
        assert(content@ == spec_line_content(t, old(self).cursor.line as nat));
        assert(grs@ == spec_line_graphemes(spec_line_content(t, old(self).cursor.line as nat), TABSTOP as nat));
        assert(col == put_col(t, old(self).cursor, after));
        let at = base + col;
        assert(at == line_start(t, old(self).cursor.line as nat) + put_col(t, old(self).cursor, after));
        self.buffer.insert(at, rep_s.as_str());
        assert(self.buffer@ == model_insert(model_begin(old(self).buffer@, old(self).cursor), at as int, rep@));
        let end = at + rep.len();
        let last_char = if end >= 1 {
            end - 1
        } else {
            0
        };
        proof {
            let t2 = self.buffer@.text;
            assert(t2.len() <= (t + rep@).len());
            lemma_fits_smaller(t + rep@, t2);
        }
        self.cursor = land(&self.buffer.rope, last_char, TABSTOP);
        let committed = self.buffer.end_change();
        if committed {
            self.change_started = true;
        }
    }

    /// `p`/`P`: puts the yank register `count` times after or before the
    /// cursor (a block register once, see [`block_put_post`]). Returns
    /// whether there was text to put.
    pub fn paste(&mut self, after: bool, count: usize) -> (put: bool)
        requires
            counters_fit(*old(self)),
            cursor_ok(old(self).buffer@.text, old(self).cursor),
            old(self).yank_reg matches Some(r) ==> reg_put_ok(*old(self), r, count as nat),
        ensures
            put == old(self).yank_reg is Some,
            match old(self).yank_reg {
                None => *final(self) == *old(self),
                Some(r) => reg_put_post(*old(self), *final(self), r, after, count as nat),
            },
    {
        let (text, linewise) = match &self.yank_reg {
            None => {
                return false;
            },
            Some(Register::Char(s)) => (chars_of(s.as_str()), false),
            Some(Register::Line(s)) => (chars_of(s.as_str()), true),
            Some(Register::Block(v)) => {
                let segs = copy_segments(v);
                self.put_block_change(&segs, after);
                return true;
            },
        };
        self.put_text(&text, linewise, after, count);
        true
    }

    /// `<leader>p`/`<leader>P`: puts the cut register once after or before
    /// the cursor. Returns whether there was text to put.
    pub fn paste_cut(&mut self, after: bool) -> (put: bool)
        requires
            counters_fit(*old(self)),
            cursor_ok(old(self).buffer@.text, old(self).cursor),
            old(self).cut_reg matches Some(r) ==> reg_put_ok(*old(self), r, 1),
        ensures
            put == old(self).cut_reg is Some,
            match old(self).cut_reg {
                None => *final(self) == *old(self),
                Some(r) => reg_put_post(*old(self), *final(self), r, after, 1),
            },
    {
        let (text, linewise) = match &self.cut_reg {
            None => {
                return false;
            },
            Some(Register::Char(s)) => (chars_of(s.as_str()), false),
            Some(Register::Line(s)) => (chars_of(s.as_str()), true),
            Some(Register::Block(v)) => {
                let segs = copy_segments(v);
                self.put_block_change(&segs, after);
                return true;
            },
        };
        self.put_text(&text, linewise, after, 1);
        true
    }
}

// ----------------------------------------------------------------------
// deleting and replacing clusters, undo and redo
// ----------------------------------------------------------------------

/// The chars `x` (forward) or `X` (backward) deletes: `count` clusters
/// from the one under the cursor, or the `count` clusters before it (none
/// before the first). `None` on an empty line or past the line's end.
pub open spec fn cluster_range(t: Seq<char>, c: Cursor, count: nat, forward: bool) -> Option<(int, int)> {
    let grs = spec_line_graphemes(spec_line_content(t, c.line as nat), TABSTOP as nat);
    let base = line_start(t, c.line as nat);
    if grs.len() == 0 {
        None
    } else {
        match first_at_col(grs, c.col as int, 0) {
            None => None,
            Some(idx) => if forward {
                let last = if idx + count - 1 < grs.len() - 1 {
                    idx + count - 1
                } else {
                    grs.len() - 1
                };
                Some((base + grs[idx].char_off, base + grs[last].char_off + grs[last].chars))
            } else if idx == 0 {
                None
            } else {
                let first = if idx >= count {
                    idx - count
                } else {
                    0
                };
                Some((base + grs[first].char_off, base + grs[idx].char_off))
            },
        }
    }
}

/// After `x`/`X`: the clusters cut and removed in their own change (the
/// undo point where they started), the cursor landing there; nothing when
/// there is nothing to delete.
pub open spec fn delete_clusters_post(s0: EditState, s1: EditState, count: nat, forward: bool) -> bool {
    let t = s0.buffer@.text;
    match cluster_range(t, s0.cursor, count, forward) {
        None => s1 == s0,
        Some((a, b)) => if a >= b {
            s1 == s0
        } else {
            let m1 = model_remove(model_begin(s0.buffer@, spec_land(t, a, TABSTOP as nat)), a, b);
            let (m, committed) = model_end(m1);
            &&& holds_chars(s1.cut_reg, t.subrange(a, b))
            &&& s1.buffer@ == m
            &&& s1.cursor == spec_land(m.text, a, TABSTOP as nat)
            &&& s1.goal is None
            &&& s1.change_started == (s0.change_started || committed)
            &&& s1.yank_reg == s0.yank_reg
            &&& s1.mode == s0.mode
            &&& s1.last_find == s0.last_find
        },
    }
}

/// A valid cursor's clusters lie in the text.
proof fn lemma_clusters_in_text(t: Seq<char>, c: Cursor, grs: Seq<Gr>)
    requires
        cursor_ok(t, c),
        crate::editing::text::grs_within(grs, spec_line_content(t, c.line as nat).len() as int),
    ensures
        forall|i: int|
            0 <= i < grs.len() ==> line_start(t, c.line as nat) + grs[i].char_off + grs[i].chars
                <= t.len(),
{
    lemma_cursor_abs(t, c);
}

/// The range `x`/`X` deletes (see [`cluster_range`]).
#[verifier::spinoff_prover]
#[verifier::rlimit(60)]
fn cluster_range_of(rope: &ropey::Rope, c: Cursor, count: usize, forward: bool) -> (r: Option<(usize, usize)>)
    requires
        count >= 1,
        cursor_ok(rope_text(*rope), c),
        text_fits(rope_text(*rope), TABSTOP as nat),
    ensures
        r == (match cluster_range(rope_text(*rope), c, count as nat, forward) {
            Some((a, b)) => Some((a as usize, b as usize)),
            None => None::<(usize, usize)>,
        }),
        cluster_range(rope_text(*rope), c, count as nat, forward) matches Some((a, b)) ==> 0 <= a
            <= rope_text(*rope).len() && 0 <= b <= rope_text(*rope).len(),
{
    let ghost t = rope_text(*rope);
    proof {
        lemma_content_fits(t, c.line as nat, TABSTOP as nat);
        lemma_fits_len(t, TABSTOP as nat);
        lemma_cursor_abs(t, c);
    }
    let content = line_content(rope, c.line);
    let grs = line_graphemes(content.as_str(), TABSTOP);
    proof {
        lemma_clusters_in_text(t, c, grs@);
    }
    if grs.len() == 0 {
        return None;
    }
    let base = rope_line_to_char(rope, c.line);
    let idx = match gr_index_at_col(grs.as_slice(), c.col) {
        None => {
            return None;
        },
        Some(i) => i,
    };
    if forward {
        let last = if count - 1 < grs.len() - 1 - idx {
            idx + count - 1
        } else {
            grs.len() - 1
        };
        Some((base + grs[idx].char_off, base + grs[last].char_off + grs[last].chars))
    } else {
        if idx == 0 {
            return None;
        }
        let first = if idx >= count {
            idx - count
        } else {
            0
        };
        Some((base + grs[first].char_off, base + grs[idx].char_off))
    }
}

impl EditState {
    /// `x` (forward) and `X` (backward) with a count.
    pub fn delete_clusters(&mut self, count: usize, forward: bool)
        requires
            count >= 1,
            counters_fit(*old(self)),
            cursor_ok(old(self).buffer@.text, old(self).cursor),
            text_fits(old(self).buffer@.text, TABSTOP as nat),
        ensures
            delete_clusters_post(*old(self), *final(self), count as nat, forward),
    {
        let ghost t = self.buffer@.text;
        proof {
            lemma_fits_len(t, TABSTOP as nat);
        }
        let (start, end) = match cluster_range_of(&self.buffer.rope, self.cursor, count, forward) {
            None => {
                return;
            },
            Some(r) => r,
        };
        if start >= end {
            return;
        }
        let text = chars_between(&self.buffer.rope, start, end);
        self.cut_reg = Some(Register::Char(crate::chars::string_of(text.as_slice())));
        let c0 = land(&self.buffer.rope, start, TABSTOP);
        self.buffer.begin_change(c0);
        self.buffer.remove(start, end);
        proof {
            lemma_fits_smaller(t, self.buffer@.text);
        }
        self.cursor = land(&self.buffer.rope, start, TABSTOP);
        let committed = self.buffer.end_change();
        if committed {
            self.change_started = true;
        }
        self.goal = None;
    }
}

/// The chars `r` replaces: `count` clusters from the one under the cursor,
/// when the line has that many.
pub open spec fn replace_range(t: Seq<char>, c: Cursor, count: nat) -> Option<(int, int, int)> {
    let grs = spec_line_graphemes(spec_line_content(t, c.line as nat), TABSTOP as nat);
    let base = line_start(t, c.line as nat);
    match first_at_col(grs, c.col as int, 0) {
        None => None,
        Some(idx) => if idx + count > grs.len() {
            None
        } else {
            let last = grs[idx + count - 1];
            Some((base + grs[idx].char_off, base + last.char_off + last.chars, grs[idx].char_off as int))
        },
    }
}

/// After `r{ch}`: the clusters replaced by `count` copies of `ch` in their
/// own change, the cursor on the last copy; nothing for a line break, or
/// when the line has too few clusters.
pub open spec fn replace_post(s0: EditState, s1: EditState, ch: char, count: nat) -> bool {
    let t = s0.buffer@.text;
    match replace_range(t, s0.cursor, count) {
        None => s1 == s0,
        Some((a, b, col)) => if ch == '\n' {
            s1 == s0
        } else {
            let m1 = model_insert(
                model_remove(model_begin(s0.buffer@, s0.cursor), a, b),
                a,
                repeat(seq![ch], count),
            );
            let (m, committed) = model_end(m1);
            &&& s1.buffer@ == m
            &&& s1.cursor == (Cursor { line: s0.cursor.line, col: (col + count - 1) as usize })
            &&& s1.goal is None
            &&& s1.change_started == (s0.change_started || committed)
            &&& s1.yank_reg == s0.yank_reg
            &&& s1.cut_reg == s0.cut_reg
            &&& s1.mode == s0.mode
            &&& s1.last_find == s0.last_find
        },
    }
}

/// The range `r` replaces and the column it starts at (see
/// [`replace_range`]).
#[verifier::spinoff_prover]
fn replace_range_of(rope: &ropey::Rope, c: Cursor, count: usize) -> (r: Option<(usize, usize, usize)>)
    requires
        count >= 1,
        cursor_ok(rope_text(*rope), c),
        text_fits(rope_text(*rope), TABSTOP as nat),
    ensures
        r == (match replace_range(rope_text(*rope), c, count as nat) {
            Some((a, b, col)) => Some((a as usize, b as usize, col as usize)),
            None => None::<(usize, usize, usize)>,
        }),
        replace_range(rope_text(*rope), c, count as nat) matches Some((a, b, col)) ==> 0 <= a <= b
            <= rope_text(*rope).len() && 0 <= col && col + count <= b,
{
    let ghost t = rope_text(*rope);
    proof {
        lemma_content_fits(t, c.line as nat, TABSTOP as nat);
        lemma_fits_len(t, TABSTOP as nat);
        lemma_cursor_abs(t, c);
    }
    let content = line_content(rope, c.line);
    let grs = line_graphemes(content.as_str(), TABSTOP);
    proof {
        lemma_clusters_in_text(t, c, grs@);
    }
    let idx = match gr_index_at_col(grs.as_slice(), c.col) {
        None => {
            return None;
        },
        Some(i) => i,
    };
    if count > grs.len() - idx {
        return None;
    }
    let base = rope_line_to_char(rope, c.line);
    let last = grs[idx + count - 1];
    proof {
        crate::editing::text::lemma_grs_ordered(
            grs@,
            content@.len() as int,
            idx as int,
            idx + count - 1,
        );
        lemma_cluster_count(grs@, content@.len() as int, idx as int, idx + count - 1);
    }
    Some((base + grs[idx].char_off, base + last.char_off + last.chars, grs[idx].char_off))
}

/// Between two clusters lie at least as many chars as clusters.
proof fn lemma_cluster_count(grs: Seq<Gr>, n: int, i: int, j: int)
    requires
        crate::editing::text::grs_within(grs, n),
        crate::editing::text::grs_contiguous(grs),
        0 <= i <= j < grs.len(),
    ensures
        grs[i].char_off + (j - i + 1) <= grs[j].char_off + grs[j].chars,
    decreases j - i,
{
    if i < j {
        lemma_cluster_count(grs, n, i, j - 1);
    }
}

impl EditState {
    /// `r{ch}` with a count: replaces clusters by copies of `ch`.
    pub fn replace_chars(&mut self, ch: char, count: usize)
        requires
            count >= 1,
            counters_fit(*old(self)),
            cursor_ok(old(self).buffer@.text, old(self).cursor),
            text_fits(old(self).buffer@.text, TABSTOP as nat),
        ensures
            replace_post(*old(self), *final(self), ch, count as nat),
    {
        if ch == '\n' {
            return;
        }
        proof {
            lemma_fits_len(self.buffer@.text, TABSTOP as nat);
        }
        let (start, end, col) = match replace_range_of(&self.buffer.rope, self.cursor, count) {
            None => {
                return;
            },
            Some(r) => r,
        };
        self.buffer.begin_change(self.cursor);
        self.buffer.remove(start, end);
        let one = vec![ch];
        assert(one@.len() * count == count) by (nonlinear_arith)
            requires
                one@.len() == 1,
        ;
        let rep = repeat_chars(&one, count);
        assert(one@ =~= seq![ch]);
        let rep_s = crate::chars::string_of(rep.as_slice());
        assert(start <= self.buffer@.text.len());
        self.buffer.insert(start, rep_s.as_str());
        self.cursor = Cursor::new(self.cursor.line, col + count - 1);
        let committed = self.buffer.end_change();
        if committed {
            self.change_started = true;
        }
        self.goal = None;
    }
}

/// Undoing (or redoing) up to `n` times from a state: the buffer, the
/// cursor, and whether history ran out first.
pub open spec fn undo_times(m: BufModel, c: Cursor, n: nat, redo: bool) -> (BufModel, Cursor, bool)
    decreases n,
{
    if n == 0 {
        (m, c, false)
    } else {
        let (m1, r) = if redo {
            model_redo(m, c)
        } else {
            model_undo(m, c)
        };
        match r {
            None => (m1, c, true),
            Some(c1) => undo_times(m1, c1, (n - 1) as nat, redo),
        }
    }
}

pub proof fn lemma_undo_times_revision(m: BufModel, c: Cursor, n: nat, redo: bool)
    ensures
        undo_times(m, c, n, redo).0.revision <= m.revision + n,
    decreases n,
{
    if n > 0 {
        let (m1, r) = if redo {
            model_redo(m, c)
        } else {
            model_undo(m, c)
        };
        if let Some(c1) = r {
            lemma_undo_times_revision(m1, c1, (n - 1) as nat, redo);
        }
    }
}

impl EditState {
    /// `u` (or `<C-r>` with `redo`) `count` times; returns whether history
    /// ran out first ("Already at oldest change" / "newest").
    pub fn undo_redo(&mut self, count: usize, redo: bool) -> (ran_out: bool)
        requires
            old(self).buffer@.revision + count < u64::MAX,
        ensures
            ({
                let (m, c, out) = undo_times(old(self).buffer@, old(self).cursor, count as nat, redo);
                &&& final(self).buffer@ == m
                &&& final(self).cursor == c
                &&& ran_out == out
            }),
            final(self).goal is None,
            final(self).mode == old(self).mode,
            final(self).yank_reg == old(self).yank_reg,
            final(self).cut_reg == old(self).cut_reg,
            final(self).last_find == old(self).last_find,
            final(self).change_started == old(self).change_started,
    {
        let ghost m0 = self.buffer@;
        let ghost c0 = self.cursor;
        let mut k: usize = 0;
        let mut ran_out = false;
        while k < count
            invariant_except_break
                !ran_out,
                undo_times(self.buffer@, self.cursor, (count - k) as nat, redo) == undo_times(m0, c0, count as nat, redo),
            invariant
                k <= count,
                self.buffer@.revision <= m0.revision + k,
                m0.revision + count < u64::MAX,
                self.mode == old(self).mode,
                self.yank_reg == old(self).yank_reg,
                self.cut_reg == old(self).cut_reg,
                self.last_find == old(self).last_find,
                self.change_started == old(self).change_started,
            ensures
                ran_out ==> ({
                    let (m, c, out) = undo_times(m0, c0, count as nat, redo);
                    m == self.buffer@ && c == self.cursor && out
                }),
                !ran_out ==> undo_times(self.buffer@, self.cursor, (count - k) as nat, redo) == undo_times(m0, c0, count as nat, redo) && k == count,
            decreases count - k,
        {
            let r = if redo {
                self.buffer.redo(self.cursor)
            } else {
                self.buffer.undo(self.cursor)
            };
            match r {
                Some(cur) => {
                    self.cursor = cur;
                },
                None => {
                    ran_out = true;
                    break;
                },
            }
            k = k + 1;
        }
        self.goal = None;
        ran_out
    }
}


/// After a motion without an operator: the cursor and the goal column follow
/// it, a find becomes the last find; a motion that fails changes nothing.
pub open spec fn move_post(s0: EditState, s1: EditState, motion: Motion, count: Option<usize>) -> bool {
    match spec_resolve(
        motion,
        count,
        s0.cursor,
        s0.buffer@.text,
        s0.goal,
        s0.last_find,
        TABSTOP as nat,
        false,
    ) {
        None => s1 == s0,
        Some(o) => {
            &&& s1.cursor == o.cursor
            &&& s1.goal == o.new_goal
            &&& s1.last_find == (if o.new_last_find is Some {
                o.new_last_find
            } else {
                s0.last_find
            })
            &&& s1.buffer == s0.buffer
            &&& s1.mode == s0.mode
            &&& s1.yank_reg == s0.yank_reg
            &&& s1.cut_reg == s0.cut_reg
            &&& s1.change_started == s0.change_started
        },
    }
}

impl EditState {
    /// A motion without an operator moves the cursor.
    pub fn move_by(&mut self, motion: Motion, count: Option<usize>)
        requires
            resolvable(motion, count, old(self).cursor, old(self).buffer@.text, TABSTOP as nat),
        ensures
            move_post(*old(self), *final(self), motion, count),
            cursor_ok(final(self).buffer@.text, final(self).cursor),
    {
        let ctx = MotionCtx {
            rope: &self.buffer.rope,
            goal: self.goal,
            last_find: self.last_find,
            tabstop: TABSTOP,
            for_operator: false,
        };
        if let Some(out) = resolve(motion, count, self.cursor, &ctx) {
            self.cursor = out.cursor;
            self.goal = out.new_goal;
            if let Some(lf) = out.new_last_find {
                self.last_find = Some(lf);
            }
        }
    }
}


/// What the editing operations ask of a state: the cursor on the text, room
/// in the counters, a text the layout arithmetic fits, LF line breaks.
pub open spec fn editable(s: EditState) -> bool {
    &&& cursor_ok(s.buffer@.text, s.cursor)
    &&& counters_fit(s)
    &&& text_fits(s.buffer@.text, TABSTOP as nat)
    &&& lf_breaks(s.buffer@.text)
}

/// Whether the texts's line breaks are all `\n`.
pub fn has_lf_breaks(rope: &Rope) -> (b: bool)
    ensures
        b == lf_breaks(rope_text(*rope)),
{
    let ghost t = rope_text(*rope);
    let n = rope_len_chars(rope);
    let mut i: usize = 0;
    while i < n
        invariant
            n == t.len(),
            t == rope_text(*rope),
            i <= n,
            forall|j: int| 1 <= j <= i && #[trigger] is_break_end(t, j) ==> t[j - 1] == '\n',
        decreases n - i,
    {
        let c = rope_char(rope, i);
        if c == '\u{b}' || c == '\u{c}' || c == '\u{85}' || c == '\u{2028}' || c == '\u{2029}' {
            assert(is_break_end(t, i + 1));
            return false;
        }
        if c == '\r' {
            if i + 1 == n || rope_char(rope, i + 1) != '\n' {
                assert(is_break_end(t, i + 1));
                return false;
            }
        }
        i += 1;
    }
    true
}

impl EditState {
    /// Whether the state is [`editable`].
    pub fn is_editable(&self) -> (b: bool)
        ensures
            b == editable(*self),
    {
        let len = rope_len_chars(&self.buffer.rope);
        let fits = len <= usize::MAX / 7;
        proof {
            if fits {
                assert(len * 7 <= usize::MAX) by (nonlinear_arith)
                    requires
                        len <= usize::MAX / 7,
                ;
            } else {
                assert(len * 7 > usize::MAX) by (nonlinear_arith)
                    requires
                        len > usize::MAX / 7,
                ;
            }
        }
        if !fits || self.buffer.revision >= u64::MAX - 2 || self.buffer.change_depth >= u32::MAX {
            return false;
        }
        if self.cursor.line >= rope_len_lines(&self.buffer.rope) {
            return false;
        }
        if self.cursor.col > line_len(&self.buffer.rope, self.cursor.line) {
            return false;
        }
        has_lf_breaks(&self.buffer.rope)
    }
}

} // verus!
