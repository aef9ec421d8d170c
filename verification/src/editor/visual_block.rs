//! Blockwise visual selections: the rectangle between the anchor and the
//! cursor in display cells, each line's share of it, and yanking it as a
//! block register.

use vstd::prelude::*;

use crate::chars::{chars_of, slice_vec, string_of};
use crate::config::TABSTOP;
use crate::editing::buffer::{model_begin, model_end, model_insert, model_remove, BufModel, Cursor};
use crate::editing::commands::Register;
use crate::editing::lines::{lemma_text_lines_bound, line_content, line_len, spec_line_content, spec_text_lines, text_lines};
use crate::editing::motion::{cursor_ok, lemma_content_fits, text_fits};
use crate::editing::rope::{lf_only, line_count, line_start, rope_line_to_char, rope_text};
use crate::editor::operator::counters_fit;
use crate::editor::shift::{lemma_content_at, lemma_content_no_newline, lemma_remove_plain};
use crate::editing::text::{
    cell_at_col, end_cell, first_at_cell, first_at_col, col_at_cell, line_graphemes, spec_line_graphemes, Gr,
};
use crate::editor::block::seg_texts;
use crate::editor::operator::EditState;
use crate::editor::Mode;
use ropey::Rope;

verus! {

/// The clusters of line `line`.
pub open spec fn line_grs(t: Seq<char>, line: nat) -> Seq<Gr> {
    spec_line_graphemes(spec_line_content(t, line), TABSTOP as nat)
}

/// The display cell of a cursor: its cluster's, or the line's end cell.
pub open spec fn cell_of(t: Seq<char>, c: Cursor) -> int {
    let grs = line_grs(t, c.line as nat);
    match first_at_col(grs, c.col as int, 0) {
        Some(i) => grs[i].cell as int,
        None => end_cell(grs),
    }
}

/// The block between the anchor and the cursor: first and last line, and
/// the left and right display cells, both included.
pub open spec fn block_rect(t: Seq<char>, a: Cursor, c: Cursor) -> (int, int, int, int) {
    let (ca, cc) = (cell_of(t, a), cell_of(t, c));
    (
        if a.line <= c.line { a.line as int } else { c.line as int },
        if a.line <= c.line { c.line as int } else { a.line as int },
        if ca <= cc { ca } else { cc },
        if ca <= cc { cc } else { ca },
    )
}

/// The first cluster from `i` on whose cells cover `cell`.
pub open spec fn covering(grs: Seq<Gr>, cell: int, i: int) -> Option<int>
    decreases grs.len() - i,
{
    if i < 0 || i >= grs.len() {
        None
    } else if grs[i].cell <= cell < grs[i].cell + grs[i].width {
        Some(i)
    } else {
        covering(grs, cell, i + 1)
    }
}

/// The chars `[start, end)` of line `line` inside the block's cells
/// `[left, right]`: from the cluster at the left edge through the whole
/// cluster covering the right edge (the line's end when none does); none
/// when the line ends before the left edge or nothing is inside.
pub open spec fn block_segment_of(t: Seq<char>, line: nat, left: int, right: int) -> Option<(int, int)> {
    let content = spec_line_content(t, line);
    let grs = line_grs(t, line);
    if end_cell(grs) <= left {
        None
    } else {
        let start = match first_at_cell(grs, left, 0) {
            Some(i) => grs[i].char_off as int,
            None => if grs.len() == 0 { 0 } else { grs.last().char_off as int },
        };
        let end = match covering(grs, right, 0) {
            Some(i) => grs[i].char_off + grs[i].chars,
            None => content.len() as int,
        };
        if end > start {
            Some((start, end))
        } else {
            None
        }
    }
}

/// The block's text on each of its lines (empty where a line has none).
pub open spec fn block_texts(t: Seq<char>, l1: int, l2: int, left: int, right: int) -> Seq<Seq<char>> {
    Seq::new(
        (l2 - l1 + 1) as nat,
        |k: int|
            match block_segment_of(t, (l1 + k) as nat, left, right) {
                Some((s, e)) => spec_line_content(t, (l1 + k) as nat).subrange(s, e),
                None => seq![],
            },
    )
}

/// After yanking a block: the yank register holds its lines' texts as a
/// block, the cursor on the block's top-left (the line's start when the
/// top line has nothing in the block), visual mode left, nothing else
/// changed.
pub open spec fn block_yank_post(s0: EditState, s1: EditState, anchor: Cursor) -> bool {
    let t = s0.buffer@.text;
    let (l1, l2, left, right) = block_rect(t, anchor, s0.cursor);
    &&& s1.yank_reg matches Some(Register::Block(v)) && seg_texts(v@) == block_texts(t, l1, l2, left, right)
    &&& s1.cursor == Cursor {
        line: l1 as usize,
        col: match block_segment_of(t, l1 as nat, left, right) {
            Some((s, _)) => s as usize,
            None => 0,
        },
    }
    &&& s1.mode == Mode::Normal
    &&& s1.goal is None
    &&& s1.buffer == s0.buffer
    &&& s1.cut_reg == s0.cut_reg
    &&& s1.last_find == s0.last_find
    &&& s1.change_started == s0.change_started
}

/// The display cell of a cursor (see [`cell_of`]).
fn cursor_cell(rope: &Rope, c: Cursor) -> (r: usize)
    requires
        text_fits(rope_text(*rope), TABSTOP as nat),
        cursor_ok(rope_text(*rope), c),
    ensures
        r == cell_of(rope_text(*rope), c),
{
    proof {
        lemma_content_fits(rope_text(*rope), c.line as nat, TABSTOP as nat);
    }
    let content = line_content(rope, c.line);
    let grs = line_graphemes(content.as_str(), TABSTOP);
    cell_at_col(grs.as_slice(), c.col)
}

/// The block's rectangle (see [`block_rect`]).
pub fn visual_block_rect(rope: &Rope, a: Cursor, c: Cursor) -> (r: (usize, usize, usize, usize))
    requires
        text_fits(rope_text(*rope), TABSTOP as nat),
        cursor_ok(rope_text(*rope), a),
        cursor_ok(rope_text(*rope), c),
    ensures
        (r.0 as int, r.1 as int, r.2 as int, r.3 as int) == block_rect(rope_text(*rope), a, c),
{
    let ca = cursor_cell(rope, a);
    let cc = cursor_cell(rope, c);
    (
        if a.line <= c.line { a.line } else { c.line },
        if a.line <= c.line { c.line } else { a.line },
        if ca <= cc { ca } else { cc },
        if ca <= cc { cc } else { ca },
    )
}

/// A line's share of the block (see [`block_segment_of`]).
pub fn block_segment(rope: &Rope, line: usize, left: usize, right: usize) -> (r: Option<(usize, usize)>)
    requires
        text_fits(rope_text(*rope), TABSTOP as nat),
        line < line_count(rope_text(*rope)),
    ensures
        match r {
            Some((s, e)) => block_segment_of(rope_text(*rope), line as nat, left as int, right as int)
                == Some((s as int, e as int)) && s < e <= spec_line_content(rope_text(*rope), line as nat).len(),
            None => block_segment_of(rope_text(*rope), line as nat, left as int, right as int) is None,
        },
{
    proof {
        lemma_content_fits(rope_text(*rope), line as nat, TABSTOP as nat);
    }
    let content = line_content(rope, line);
    let n = chars_of(content.as_str()).len();
    let grs = line_graphemes(content.as_str(), TABSTOP);
    let width: usize = if grs.len() == 0 {
        0
    } else {
        grs[grs.len() - 1].cell + grs[grs.len() - 1].width
    };
    if width <= left {
        return None;
    }
    let start = col_at_cell(grs.as_slice(), left);
    let mut i: usize = 0;
    let mut end: usize = n;
    while i < grs.len()
        invariant_except_break
            i <= grs@.len(),
            end == n,
            crate::editing::text::grs_fit(grs@),
            covering(grs@, right as int, i as int) == covering(grs@, right as int, 0),
        ensures
            end == match covering(grs@, right as int, 0) {
                Some(j) => grs@[j].char_off + grs@[j].chars,
                None => n as int,
            },
        decreases grs@.len() - i,
    {
        if grs[i].cell <= right && right < grs[i].cell + grs[i].width {
            end = grs[i].char_off + grs[i].chars;
            break;
        }
        i += 1;
    }
    proof {
        lemma_covering_within(grs@, n as int, right as int, 0);
    }
    if end > start {
        Some((start, end))
    } else {
        None
    }
}

proof fn lemma_covering_within(grs: Seq<Gr>, n: int, cell: int, i: int)
    requires
        crate::editing::text::grs_within(grs, n),
        0 <= i,
    ensures
        covering(grs, cell, i) matches Some(j) ==> i <= j < grs.len() && grs[j].char_off + grs[j].chars <= n,
    decreases grs.len() - i,
{
    if i < grs.len() && !(grs[i].cell <= cell < grs[i].cell + grs[i].width) {
        lemma_covering_within(grs, n, cell, i + 1);
    }
}

impl EditState {
    /// `y` on a block selection (see [`block_yank_post`]).
    pub fn visual_block_yank(&mut self, anchor: Cursor)
        requires
            text_fits(old(self).buffer@.text, TABSTOP as nat),
            cursor_ok(old(self).buffer@.text, old(self).cursor),
            cursor_ok(old(self).buffer@.text, anchor),
        ensures
            block_yank_post(*old(self), *final(self), anchor),
    {
        let ghost t = self.buffer@.text;
        let (l1, l2, left, right) = visual_block_rect(&self.buffer.rope, anchor, self.cursor);
        proof {
            crate::editing::rope::lemma_breaks_bound(t, t.len() as int);
            assert(t.len() + 1 < usize::MAX) by (nonlinear_arith)
                requires
                    t.len() * (3 + TABSTOP) <= usize::MAX,
            ;
            assert(l2 < line_count(t));
        }
        let mut segs: Vec<String> = Vec::new();
        let mut line = l1;
        while line <= l2
            invariant
                l1 <= line <= l2 + 1,
                l2 < line_count(t),
                l2 < usize::MAX,
                rope_text(self.buffer.rope) == t,
                text_fits(t, TABSTOP as nat),
                segs@.len() == line - l1,
                forall|k: int|
                    0 <= k < segs@.len() ==> #[trigger] segs@[k]@ == block_texts(t, l1 as int, l2 as int, left as int, right as int)[k],
            decreases l2 + 1 - line,
        {
            let text = match block_segment(&self.buffer.rope, line, left, right) {
                Some((s, e)) => {
                    let content = line_content(&self.buffer.rope, line);
                    let v = chars_of(content.as_str());
                    string_of(slice_vec(v.as_slice(), s, e).as_slice())
                },
                None => String::new(),
            };
            segs.push(text);
            line = line + 1;
        }
        assert(seg_texts(segs@) =~= block_texts(t, l1 as int, l2 as int, left as int, right as int));
        let top = match block_segment(&self.buffer.rope, l1, left, right) {
            Some((s, _)) => s,
            None => 0,
        };
        self.yank_reg = Some(Register::Block(segs));
        self.goal = None;
        self.mode = Mode::Normal;
        self.cursor = Cursor { line: l1, col: top };
    }
}

/// Lines `l .. l + k` of the block removed, top to bottom, each line's
/// share taken from the text as it stands when its turn comes.
pub open spec fn block_removed(m: BufModel, l: nat, k: nat, left: int, right: int) -> BufModel
    decreases k,
{
    if k == 0 {
        m
    } else {
        let m0 = block_removed(m, l, (k - 1) as nat, left, right);
        let line = (l + k - 1) as nat;
        match block_segment_of(m0.text, line, left, right) {
            Some((s, e)) => model_remove(m0, line_start(m0.text, line) + s, line_start(m0.text, line) + e),
            None => m0,
        }
    }
}

/// After `d` on a block selection: the cut register holds the block's
/// lines' texts; the block removed line by line in one change opened at
/// the block's top-left; the cursor there, clamped; visual mode left.
pub open spec fn block_delete_post(s0: EditState, s1: EditState, anchor: Cursor) -> bool {
    let t = s0.buffer@.text;
    let (l1, l2, left, right) = block_rect(t, anchor, s0.cursor);
    let top = Cursor {
        line: l1 as usize,
        col: match block_segment_of(t, l1 as nat, left, right) {
            Some((s, _)) => s as usize,
            None => 0,
        },
    };
    let (m, committed) = model_end(
        block_removed(model_begin(s0.buffer@, top), l1 as nat, (l2 - l1 + 1) as nat, left, right),
    );
    &&& s1.cut_reg matches Some(Register::Block(v)) && seg_texts(v@) == block_texts(t, l1, l2, left, right)
    &&& s1.buffer@ == m
    &&& s1.cursor == crate::editor::edits::spec_clamp(m.text, top, Mode::Normal)
    &&& s1.mode == Mode::Normal
    &&& s1.goal is None
    &&& s1.change_started == (s0.change_started || committed)
    &&& s1.yank_reg == s0.yank_reg
    &&& s1.last_find == s0.last_find
}

impl EditState {
    /// `d` on a block selection (see [`block_delete_post`]).
    #[verifier::spinoff_prover]
    #[verifier::rlimit(60)]
    pub fn visual_block_delete(&mut self, anchor: Cursor)
        requires
            lf_only(old(self).buffer@.text),
            text_fits(old(self).buffer@.text, TABSTOP as nat),
            cursor_ok(old(self).buffer@.text, old(self).cursor),
            cursor_ok(old(self).buffer@.text, anchor),
            counters_fit(*old(self)),
            old(self).buffer@.revision + line_count(old(self).buffer@.text) + 2 < u64::MAX,
        ensures
            block_delete_post(*old(self), *final(self), anchor),
    {
        let ghost t = self.buffer@.text;
        let ghost s0 = *self;
        let (l1, l2, left, right) = visual_block_rect(&self.buffer.rope, anchor, self.cursor);
        let yank = self.yank_reg.take();
        let ghost y0 = s0.yank_reg;
        self.visual_block_yank(anchor);
        let cut = self.yank_reg.take();
        self.yank_reg = yank;
        self.cut_reg = cut;
        let top = self.cursor;
        proof {
            crate::editing::rope::lemma_breaks_bound(t, t.len() as int);
            assert(t.len() + 1 < usize::MAX) by (nonlinear_arith)
                requires
                    t.len() * (3 + TABSTOP) <= usize::MAX,
            ;
            crate::editing::rope::lemma_lf_only_lines(t);
        }
        self.buffer.begin_change(top);
        let ghost m1 = self.buffer@;
        let mut line = l1;
        while line <= l2
            invariant
                l1 <= line <= l2 + 1,
                l2 < line_count(t),
                l2 < usize::MAX,
                m1.text == t,
                lf_only(self.buffer@.text),
                crate::editing::rope::newlines(self.buffer@.text) == crate::editing::rope::newlines(t),
                line_count(t) == crate::editing::rope::newlines(t) + 1,
                self.buffer@.text.len() <= t.len(),
                text_fits(t, TABSTOP as nat),
                self.buffer@ == block_removed(m1, l1 as nat, (line - l1) as nat, left as int, right as int),
                self.buffer@.revision <= m1.revision + (line - l1),
                m1.revision + line_count(t) + 2 < u64::MAX,
                self.cursor == top,
                self.mode == Mode::Normal,
                self.goal is None,
                self.yank_reg == y0,
                self.cut_reg == cut,
                self.last_find == s0.last_find,
                self.change_started == s0.change_started,
            decreases l2 + 1 - line,
        {
            let ghost tc = self.buffer@.text;
            proof {
                crate::editing::rope::lemma_lf_only_lines(tc);
                assert(tc.len() * (3 + TABSTOP) <= usize::MAX) by (nonlinear_arith)
                    requires
                        tc.len() <= t.len(),
                        t.len() * (3 + TABSTOP) <= usize::MAX,
                ;
                lemma_content_at(tc, line as nat);
                lemma_content_no_newline(tc, line as nat);
            }
            match block_segment(&self.buffer.rope, line, left, right) {
                Some((s, e)) => {
                    let ls = rope_line_to_char(&self.buffer.rope, line);
                    proof {
                        let c = spec_line_content(tc, line as nat);
                        assert forall|k: int| ls + s <= k < ls + e implies #[trigger] tc[k] != '\n' by {
                            assert(tc[k] == c[k - ls]);
                        };
                        lemma_remove_plain(tc, ls + s, ls + e);
                        crate::editing::rope::lemma_lf_only_lines(tc.take(ls + s) + tc.skip(ls + e));
                    }
                    self.buffer.remove(ls + s, ls + e);
                },
                None => {},
            }
            line = line + 1;
        }
        let committed = self.buffer.end_change();
        if committed {
            self.change_started = true;
        }
        proof {
            let tf = self.buffer@.text;
            assert(tf.len() * (3 + TABSTOP) <= usize::MAX) by (nonlinear_arith)
                requires
                    tf.len() <= t.len(),
                    t.len() * (3 + TABSTOP) <= usize::MAX,
            ;
        }
        self.clamp_cursor();
    }
}

/// A block change waiting for insert mode to end: the top line and the
/// block column where typing happens, and the other block lines that get
/// the same text.
pub struct BlockChange {
    pub top_line: usize,
    pub lines: Vec<usize>,
    pub col: usize,
}

/// After insert mode ends on a block change: when the cursor is still on
/// the top line at or past the block column, the text typed there is put
/// at the block column of each other block line that exists and reaches
/// it; otherwise nothing.
pub open spec fn block_replicated(m: BufModel, cursor: Cursor, bc: BlockChange) -> BufModel {
    if cursor.line != bc.top_line || cursor.col < bc.col {
        m
    } else {
        let typed = spec_line_content(m.text, bc.top_line as nat).subrange(bc.col as int, cursor.col as int);
        replicate(m, bc.lines@, bc.col as int, typed, bc.lines@.len() as nat)
    }
}

/// `typed` put at column `col` of the first `k` of `lines`, skipping the
/// lines that do not exist or end before the column.
pub open spec fn replicate(m: BufModel, lines: Seq<usize>, col: int, typed: Seq<char>, k: nat) -> BufModel
    decreases k,
{
    if k == 0 {
        m
    } else {
        let m0 = replicate(m, lines, col, typed, (k - 1) as nat);
        let l = lines[k - 1];
        if l >= spec_text_lines(m0.text) || spec_line_content(m0.text, l as nat).len() < col {
            m0
        } else {
            model_insert(m0, line_start(m0.text, l as nat) + col, typed)
        }
    }
}

/// After `c` on a block selection: as after `d` (see
/// [`block_delete_post`]) but the change stays open and insert mode
/// starts at the block's top-left, the other block lines waiting for what
/// is typed there (see [`BlockChange`]).
pub open spec fn block_change_post(s0: EditState, s1: EditState, anchor: Cursor, bc: BlockChange) -> bool {
    let t = s0.buffer@.text;
    let (l1, l2, left, right) = block_rect(t, anchor, s0.cursor);
    let top = Cursor {
        line: l1 as usize,
        col: match block_segment_of(t, l1 as nat, left, right) {
            Some((s, _)) => s as usize,
            None => 0,
        },
    };
    let m = block_removed(model_begin(s0.buffer@, top), l1 as nat, (l2 - l1 + 1) as nat, left, right);
    &&& s1.cut_reg matches Some(Register::Block(v)) && seg_texts(v@) == block_texts(t, l1, l2, left, right)
    &&& s1.buffer@ == m
    &&& s1.cursor == crate::editor::edits::spec_clamp(m.text, top, Mode::Insert)
    &&& s1.mode == Mode::Insert
    &&& s1.goal is None
    &&& s1.change_started == s0.change_started
    &&& bc.top_line == l1 && bc.col == top.col
    &&& bc.lines@ == Seq::new((l2 - l1) as nat, |k: int| (l1 + 1 + k) as usize)
    &&& s1.yank_reg == s0.yank_reg
    &&& s1.last_find == s0.last_find
}

impl EditState {
    /// `c` on a block selection (see [`block_change_post`]).
    #[verifier::spinoff_prover]
    #[verifier::rlimit(60)]
    pub fn visual_block_change(&mut self, anchor: Cursor) -> (bc: BlockChange)
        requires
            lf_only(old(self).buffer@.text),
            text_fits(old(self).buffer@.text, TABSTOP as nat),
            cursor_ok(old(self).buffer@.text, old(self).cursor),
            cursor_ok(old(self).buffer@.text, anchor),
            counters_fit(*old(self)),
            old(self).buffer@.revision + line_count(old(self).buffer@.text) + 2 < u64::MAX,
        ensures
            block_change_post(*old(self), *final(self), anchor, bc),
    {
        let ghost t = self.buffer@.text;
        let ghost s0 = *self;
        let (l1, l2, left, right) = visual_block_rect(&self.buffer.rope, anchor, self.cursor);
        let yank = self.yank_reg.take();
        let ghost y0 = s0.yank_reg;
        self.visual_block_yank(anchor);
        let cut = self.yank_reg.take();
        self.yank_reg = yank;
        self.cut_reg = cut;
        let top = self.cursor;
        proof {
            crate::editing::rope::lemma_breaks_bound(t, t.len() as int);
            assert(t.len() + 1 < usize::MAX) by (nonlinear_arith)
                requires
                    t.len() * (3 + TABSTOP) <= usize::MAX,
            ;
            crate::editing::rope::lemma_lf_only_lines(t);
        }
        self.buffer.begin_change(top);
        let ghost m1 = self.buffer@;
        let mut line = l1;
        while line <= l2
            invariant
                l1 <= line <= l2 + 1,
                l2 < line_count(t),
                l2 < usize::MAX,
                m1.text == t,
                lf_only(self.buffer@.text),
                crate::editing::rope::newlines(self.buffer@.text) == crate::editing::rope::newlines(t),
                line_count(t) == crate::editing::rope::newlines(t) + 1,
                self.buffer@.text.len() <= t.len(),
                text_fits(t, TABSTOP as nat),
                self.buffer@ == block_removed(m1, l1 as nat, (line - l1) as nat, left as int, right as int),
                self.buffer@.revision <= m1.revision + (line - l1),
                m1.revision + line_count(t) + 2 < u64::MAX,
                self.cursor == top,
                self.mode == Mode::Normal,
                self.goal is None,
                self.yank_reg == y0,
                self.cut_reg == cut,
                self.last_find == s0.last_find,
                self.change_started == s0.change_started,
            decreases l2 + 1 - line,
        {
            let ghost tc = self.buffer@.text;
            proof {
                crate::editing::rope::lemma_lf_only_lines(tc);
                assert(tc.len() * (3 + TABSTOP) <= usize::MAX) by (nonlinear_arith)
                    requires
                        tc.len() <= t.len(),
                        t.len() * (3 + TABSTOP) <= usize::MAX,
                ;
                lemma_content_at(tc, line as nat);
                lemma_content_no_newline(tc, line as nat);
            }
            match block_segment(&self.buffer.rope, line, left, right) {
                Some((s, e)) => {
                    let ls = rope_line_to_char(&self.buffer.rope, line);
                    proof {
                        let c = spec_line_content(tc, line as nat);
                        assert forall|k: int| ls + s <= k < ls + e implies #[trigger] tc[k] != '\n' by {
                            assert(tc[k] == c[k - ls]);
                        };
                        lemma_remove_plain(tc, ls + s, ls + e);
                        crate::editing::rope::lemma_lf_only_lines(tc.take(ls + s) + tc.skip(ls + e));
                    }
                    self.buffer.remove(ls + s, ls + e);
                },
                None => {},
            }
            line = line + 1;
        }
        let mut lines: Vec<usize> = Vec::new();
        let mut k = l1;
        while k < l2
            invariant
                l1 <= k <= l2,
                lines@ == Seq::new((k - l1) as nat, |j: int| (l1 + 1 + j) as usize),
            decreases l2 - k,
        {
            lines.push(k + 1);
            k += 1;
            assert(lines@ =~= Seq::new((k - l1) as nat, |j: int| (l1 + 1 + j) as usize));
        }
        self.mode = Mode::Insert;
        proof {
            let tf = self.buffer@.text;
            assert(tf.len() * (3 + TABSTOP) <= usize::MAX) by (nonlinear_arith)
                requires
                    tf.len() <= t.len(),
                    t.len() * (3 + TABSTOP) <= usize::MAX,
            ;
        }
        self.clamp_cursor();
        BlockChange { top_line: l1, lines, col: top.col }
    }
}


impl EditState {
    /// Ends a block change (see [`block_replicated`]); runs inside the
    /// change the block change opened.
    pub fn finish_block_change(&mut self, bc: &BlockChange)
        requires
            cursor_ok(old(self).buffer@.text, old(self).cursor),
            old(self).buffer@.revision + bc.lines@.len() < u64::MAX,
            old(self).buffer@.text.len() + bc.lines@.len() * old(self).buffer@.text.len() <= usize::MAX,
        ensures
            final(self).buffer@ == block_replicated(old(self).buffer@, old(self).cursor, *bc),
            final(self).cursor == old(self).cursor,
            final(self).mode == old(self).mode,
            final(self).goal == old(self).goal,
            final(self).yank_reg == old(self).yank_reg,
            final(self).cut_reg == old(self).cut_reg,
            final(self).last_find == old(self).last_find,
            final(self).change_started == old(self).change_started,
    {
        if self.cursor.line != bc.top_line || self.cursor.col < bc.col {
            return;
        }
        let ghost m0 = self.buffer@;
        let content = line_content(&self.buffer.rope, bc.top_line);
        let cv = chars_of(content.as_str());
        let typed_v = slice_vec(cv.as_slice(), bc.col, self.cursor.col);
        let typed = string_of(typed_v.as_slice());
        let ghost ty = typed@;
        proof {
            lemma_line_len_text(m0.text, bc.top_line as nat);
        }
        let mut i: usize = 0;
        while i < bc.lines.len()
            invariant
                i <= bc.lines@.len(),
                ty.len() <= m0.text.len(),
                self.buffer@ == replicate(m0, bc.lines@, bc.col as int, ty, i as nat),
                self.buffer@.text.len() <= m0.text.len() + i * ty.len(),
                self.buffer@.revision <= m0.revision + i,
                m0.revision + bc.lines@.len() < u64::MAX,
                m0.text.len() + bc.lines@.len() * m0.text.len() <= usize::MAX,
                typed@ == ty,
                self.cursor == old(self).cursor,
                self.mode == old(self).mode,
                self.goal == old(self).goal,
                self.yank_reg == old(self).yank_reg,
                self.cut_reg == old(self).cut_reg,
                self.last_find == old(self).last_find,
                self.change_started == old(self).change_started,
            decreases bc.lines@.len() - i,
        {
            let l = bc.lines[i];
            let ghost tc = self.buffer@.text;
            proof {
                assert(i * ty.len() + ty.len() <= bc.lines@.len() * m0.text.len()) by (nonlinear_arith)
                    requires
                        i < bc.lines@.len(),
                        ty.len() <= m0.text.len(),
                ;
                assert((i + 1) * ty.len() == i * ty.len() + ty.len()) by (nonlinear_arith);
                lemma_text_lines_bound(tc);
            }
            if l < text_lines(&self.buffer.rope) {
                let len = line_len(&self.buffer.rope, l);
                if len >= bc.col {
                    proof {
                        lemma_line_len_text(tc, l as nat);
                    }
                    let at = rope_line_to_char(&self.buffer.rope, l) + bc.col;
                    self.buffer.insert(at, typed.as_str());
                }
            }
            i += 1;
        }
    }
}

/// A line's content ends within the text.
proof fn lemma_line_len_text(t: Seq<char>, l: nat)
    ensures
        line_start(t, l) + spec_line_content(t, l).len() <= t.len(),
        spec_line_content(t, l).len() <= t.len(),
{
    lemma_content_at(t, l);
    crate::editing::rope::lemma_line_start_len(t, l);
}
} // verus!
