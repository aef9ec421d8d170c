//! Blockwise put: each segment of a block register lands on a successive
//! line at the same display cell, lines added and short lines padded with
//! spaces as needed.

use vstd::prelude::*;

use crate::config::TABSTOP;
use crate::editing::buffer::{model_begin, model_end, model_insert, BufModel, Buffer, Cursor};
use crate::chars::chars_of;
use crate::editing::lines::{
    lemma_text_lines_bound, line_content, line_len, spec_line_content, spec_text_lines, text_lines,
};
use crate::editing::motion::{cursor_ok, lemma_content_fits, text_fits};
use crate::editor::operator::{counters_fit, EditState};
use crate::editing::text::{
    cell_at_col, end_cell, first_at_col, grs_laid_out, lemma_cells_ordered, lemma_first_at_col_range,
    line_graphemes, spec_line_graphemes, Gr,
};
use crate::editing::rope::{
    lemma_lf_only_lines, lemma_newlines_add, lemma_newlines_none, lf_only, line_count, newlines,
    odd_break, rope_len_chars, lemma_line_start_len, line_chars, line_start, rope_line_to_char,
};

verus! {

/// Chars that start no line: no `\n` and no other break char.
pub open spec fn plain_text(s: Seq<char>) -> bool {
    forall|i: int| 0 <= i < s.len() ==> #[trigger] s[i] != '\n' && !odd_break(s[i])
}

/// In an LF-only text the lines as the user sees them number the `\n`s,
/// or one more when the text does not end with one.
pub proof fn lemma_lf_text_lines(t: Seq<char>)
    requires
        lf_only(t),
    ensures
        newlines(t) <= spec_text_lines(t) <= newlines(t) + 1,
        t.len() > 0 && t.last() == '\n' ==> spec_text_lines(t) == (if newlines(t) >= 1 {
            newlines(t)
        } else {
            1
        }),
{
    lemma_lf_only_lines(t);
    if t.len() > 0 && t.last() == '\n' {
        lemma_text_lines_bound(t);
    }
}

/// Appending a `\n` to an LF-only text keeps it LF-only with one `\n` more.
pub proof fn lemma_append_nl(t: Seq<char>)
    requires
        lf_only(t),
    ensures
        lf_only(t.push('\n')),
        newlines(t.push('\n')) == newlines(t) + 1,
{
    assert(t.push('\n').drop_last() =~= t);
    assert forall|i: int| 0 <= i < t.push('\n').len() implies !odd_break(#[trigger] t.push('\n')[i]) by {
        if i < t.len() {
            assert(t.push('\n')[i] == t[i]);
        }
    }
}

/// Inserting plain chars keeps an LF-only text LF-only, with as many `\n`s.
pub proof fn lemma_insert_plain(t: Seq<char>, i: int, s: Seq<char>)
    requires
        lf_only(t),
        plain_text(s),
        0 <= i <= t.len(),
    ensures
        lf_only(t.take(i) + s + t.skip(i)),
        newlines(t.take(i) + s + t.skip(i)) == newlines(t),
{
    let u = t.take(i) + s + t.skip(i);
    assert forall|k: int| 0 <= k < u.len() implies !odd_break(#[trigger] u[k]) by {
        if k < i {
            assert(u[k] == t[k]);
        } else if k < i + s.len() {
            assert(u[k] == s[k - i]);
        } else {
            assert(u[k] == t[k - s.len()]);
        }
    }
    assert(t =~= t.take(i) + t.skip(i));
    lemma_newlines_add(t.take(i), t.skip(i));
    lemma_newlines_add(t.take(i) + s, t.skip(i));
    lemma_newlines_add(t.take(i), s);
    lemma_newlines_none(s);
}

/// The buffer with `\n`s appended until line `line` exists.
pub open spec fn grow_to(m: BufModel, line: nat) -> BufModel
    decreases line + 1 - newlines(m.text),
    when lf_only(m.text) && !m.read_only
{
    if line < spec_text_lines(m.text) {
        m
    } else {
        proof {
            lemma_lf_text_lines(m.text);
            lemma_append_nl(m.text);
            assert(m.text.take(m.text.len() as int) + seq!['\n'] + m.text.skip(m.text.len() as int)
                =~= m.text.push('\n'));
        }
        grow_to(model_insert(m, m.text.len() as int, seq!['\n']), line)
    }
}

/// The char column a block segment goes to on a line: the first cluster
/// starting at or after `cell`, the line's end past them all.
pub open spec fn col_for_cell(grs: Seq<Gr>, cell: int, len: int, i: int) -> int
    decreases grs.len() - i,
{
    if i < 0 || i >= grs.len() {
        len
    } else if grs[i].cell >= cell {
        grs[i].char_off as int
    } else {
        col_for_cell(grs, cell, len, i + 1)
    }
}

/// `n` spaces.
pub open spec fn spaces(n: nat) -> Seq<char> {
    Seq::new(n, |_i: int| ' ')
}

/// Line `line` padded with spaces to reach display cell `cell`.
pub open spec fn pad_line(m: BufModel, line: nat, cell: int) -> BufModel {
    let c = spec_line_content(m.text, line);
    let w = end_cell(spec_line_graphemes(c, TABSTOP as nat));
    if w < cell {
        model_insert(m, line_start(m.text, line) + c.len(), spaces((cell - w) as nat))
    } else {
        m
    }
}

/// One segment of a block put: nothing for an empty one; else the line is
/// made to exist and reach the cell, and the segment goes in at the first
/// cluster at or after the cell.
pub open spec fn put_segment(m: BufModel, line: nat, cell: int, seg: Seq<char>) -> BufModel {
    if seg.len() == 0 {
        m
    } else {
        let m2 = pad_line(grow_to(m, line), line, cell);
        let c = spec_line_content(m2.text, line);
        model_insert(
            m2,
            line_start(m2.text, line) + col_for_cell(spec_line_graphemes(c, TABSTOP as nat), cell, c.len() as int, 0),
            seg,
        )
    }
}

proof fn lemma_col_for_cell(grs: Seq<Gr>, cell: int, len: int, i: int)
    requires
        forall|k: int| 0 <= k < grs.len() ==> (#[trigger] grs[k]).char_off <= len,
        0 <= len,
    ensures
        0 <= col_for_cell(grs, cell, len, i) <= len,
    decreases grs.len() - i,
{
    if 0 <= i < grs.len() && grs[i].cell < cell {
        lemma_col_for_cell(grs, cell, len, i + 1);
    }
}

/// The first cluster from `i` starting exactly at char column `col`.
pub open spec fn starting_at(grs: Seq<Gr>, col: int, i: int) -> Option<int>
    decreases grs.len() - i,
{
    if i < 0 || i >= grs.len() {
        None
    } else if grs[i].char_off == col {
        Some(i)
    } else {
        starting_at(grs, col, i + 1)
    }
}

/// The display cell a block put starts at: the cursor's cell, just past
/// the cluster starting there when putting after the cursor.
pub open spec fn put_cell(t: Seq<char>, c: Cursor, after: bool) -> int {
    let grs = spec_line_graphemes(spec_line_content(t, c.line as nat), TABSTOP as nat);
    let base = match first_at_col(grs, c.col as int, 0) {
        Some(i) => grs[i].cell as int,
        None => end_cell(grs),
    };
    if after {
        base + match starting_at(grs, c.col as int, 0) {
            Some(i) => grs[i].width as int,
            None => 0,
        }
    } else {
        base
    }
}

/// The first `k` segments put on successive lines from `line0`.
pub open spec fn put_segments(m: BufModel, segs: Seq<Seq<char>>, line0: nat, cell: int, k: nat) -> BufModel
    decreases k,
{
    if k == 0 {
        m
    } else {
        put_segment(put_segments(m, segs, line0, cell, (k - 1) as nat), (line0 + k - 1) as nat, cell, segs[k - 1])
    }
}

/// What a blockwise put in its own change asks: room in the counters and
/// the arithmetic on a writable buffer; on a read-only one (where nothing
/// is written) the line of every non-empty segment must already exist, as
/// no line can be added there.
pub open spec fn block_put_ok(s: EditState, segs: Seq<Seq<char>>) -> bool {
    &&& counters_fit(s)
    &&& cursor_ok(s.buffer@.text, s.cursor)
    &&& if s.buffer@.read_only {
        forall|i: int|
            0 <= i < segs.len() && #[trigger] segs[i].len() > 0 ==> s.cursor.line + i < spec_text_lines(
                s.buffer@.text,
            )
    } else {
        block_ok(s.buffer@, s.cursor, segs)
    }
}

/// After a blockwise put in its own change: the segments put from the
/// cursor's line at its cell (see [`put_segments`]), the cursor where it
/// was.
pub open spec fn block_put_post(s0: EditState, s1: EditState, segs: Seq<Seq<char>>, after: bool) -> bool {
    let m1 = model_begin(s0.buffer@, s0.cursor);
    let m2 = if m1.read_only {
        m1
    } else {
        put_segments(m1, segs, s0.cursor.line as nat, put_cell(s0.buffer@.text, s0.cursor, after), segs.len())
    };
    let (m3, committed) = model_end(m2);
    &&& s1.buffer@ == m3
    &&& s1.cursor == s0.cursor
    &&& s1.goal is None
    &&& s1.change_started == (s0.change_started || committed)
    &&& s1.mode == s0.mode
    &&& s1.yank_reg == s0.yank_reg
    &&& s1.cut_reg == s0.cut_reg
    &&& s1.last_find == s0.last_find
}

/// A copy of a block register's segments.
pub fn copy_segments(v: &Vec<String>) -> (out: Vec<String>)
    ensures
        seg_texts(out@) == seg_texts(v@),
{
    let mut out: Vec<String> = Vec::new();
    let mut i: usize = 0;
    while i < v.len()
        invariant
            i <= v@.len(),
            out@.len() == i,
            forall|j: int| 0 <= j < i ==> #[trigger] out@[j]@ == v@[j]@,
        decreases v@.len() - i,
    {
        let c = crate::chars::string_of(chars_of(v[i].as_str()).as_slice());
        out.push(c);
        i += 1;
    }
    assert(seg_texts(out@) =~= seg_texts(v@));
    out
}

/// The total length of the first `k` segments.
pub open spec fn seg_total(segs: Seq<Seq<char>>, k: int) -> nat
    decreases k,
{
    if k <= 0 || k > segs.len() {
        0
    } else {
        seg_total(segs, k - 1) + segs[k - 1].len()
    }
}

/// The segments a block register holds, as texts.
pub open spec fn seg_texts(v: Seq<String>) -> Seq<Seq<char>> {
    v.map_values(|s: String| s@)
}

/// Room for a block put in the counters and the layout arithmetic, and a
/// text it can work on: LF-only, writable, segments without line breaks.
pub open spec fn block_ok(m: BufModel, c: Cursor, segs: Seq<Seq<char>>) -> bool {
    let n = segs.len();
    let k = c.line + n + 1 + 14 * m.text.len();
    &&& lf_only(m.text)
    &&& !m.read_only
    &&& forall|i: int| 0 <= i < n ==> plain_text(#[trigger] segs[i])
    &&& (m.text.len() + n * k + seg_total(segs, n as int)) * (3 + TABSTOP) <= usize::MAX
    &&& m.revision + n * (c.line + n + 3) < u64::MAX
}

proof fn lemma_seg_total_mono(segs: Seq<Seq<char>>, i: int, j: int)
    requires
        0 <= i <= j <= segs.len(),
    ensures
        seg_total(segs, i) <= seg_total(segs, j),
    decreases j - i,
{
    if i < j {
        lemma_seg_total_mono(segs, i, j - 1);
    }
}

impl Buffer {
    /// Appends `\n`s until line `line` exists.
    pub fn grow_to_line(&mut self, line: usize)
        requires
            lf_only(old(self)@.text),
            !old(self)@.read_only,
            old(self)@.revision + line + 1 < u64::MAX,
        ensures
            final(self)@ == grow_to(old(self)@, line as nat),
            lf_only(final(self)@.text),
            line < spec_text_lines(final(self)@.text),
            newlines(final(self)@.text) <= (if newlines(old(self)@.text) > line + 1 {
                newlines(old(self)@.text) as int
            } else {
                line + 1
            }),
            final(self)@.text.len() <= old(self)@.text.len() + line + 1,
            final(self)@.revision <= old(self)@.revision + line + 1,
            final(self)@.read_only == old(self)@.read_only,
            final(self)@.depth == old(self)@.depth,
            final(self)@.undo == old(self)@.undo,
            final(self)@.open_change == old(self)@.open_change,
            final(self)@.saved_state == old(self)@.saved_state,
    {
        let ghost m0 = self@;
        let ghost n0 = newlines(m0.text);
        while line >= text_lines(&self.rope)
            invariant
                lf_only(self@.text),
                !self@.read_only,
                grow_to(self@, line as nat) == grow_to(m0, line as nat),
                self@.revision + newlines(m0.text) <= m0.revision + newlines(self@.text),
                m0.revision + line + 1 < u64::MAX,
                self@.text.len() + n0 == m0.text.len() + newlines(self@.text),
                newlines(self@.text) >= n0,
                newlines(self@.text) <= (if n0 > line + 1 {
                    n0 as int
                } else {
                    line + 1
                }),
                self@.depth == m0.depth,
                self@.undo == m0.undo,
                self@.open_change == m0.open_change,
                self@.saved_state == m0.saved_state,
            decreases line + 1 - newlines(self@.text),
        {
            let ghost t = self@.text;
            proof {
                lemma_lf_text_lines(t);
                lemma_append_nl(t);
                assert(t.take(t.len() as int) + seq!['\n'] + t.skip(t.len() as int) =~= t.push('\n'));
            }
            let len = rope_len_chars(&self.rope);
            let mut nl = String::new();
            nl.push('\n');
            assert(nl@ =~= seq!['\n']);
            self.insert(len, nl.as_str());
        }
        proof {
            lemma_lf_text_lines(self@.text);
        }
    }

    /// Pads line `line` with spaces to reach display cell `cell`.
    #[verifier::spinoff_prover]
    fn pad_to_cell(&mut self, line: usize, cell: usize)
        requires
            lf_only(old(self)@.text),
            line < line_count(old(self)@.text),
            old(self)@.revision < u64::MAX,
            (old(self)@.text.len() + cell) * (3 + TABSTOP) <= usize::MAX,
        ensures
            final(self)@ == pad_line(old(self)@, line as nat, cell as int),
            lf_only(final(self)@.text),
            newlines(final(self)@.text) == newlines(old(self)@.text),
            final(self)@.text.len() <= old(self)@.text.len() + cell,
            final(self)@.revision <= old(self)@.revision + 1,
            final(self)@.read_only == old(self)@.read_only,
            final(self)@.depth == old(self)@.depth,
            final(self)@.undo == old(self)@.undo,
            final(self)@.open_change == old(self)@.open_change,
            final(self)@.saved_state == old(self)@.saved_state,
    {
        let ghost t1 = self@.text;
        proof {
            assert(t1.len() * (3 + TABSTOP) <= usize::MAX) by (nonlinear_arith)
                requires
                    (t1.len() + cell) * (3 + TABSTOP) <= usize::MAX,
            ;
            lemma_content_fits(t1, line as nat, TABSTOP as nat);
            lemma_line_start_len(t1, line as nat);
            assert(spec_line_content(t1, line as nat).len() <= line_chars(t1, line as nat).len());
            assert(t1.len() <= usize::MAX) by (nonlinear_arith)
                requires
                    t1.len() * (3 + TABSTOP) <= usize::MAX,
            ;
            assert(line_start(t1, line as nat) + spec_line_content(t1, line as nat).len() <= t1.len());
        }
        let content = line_content(&self.rope, line);
        let grs = line_graphemes(content.as_str(), TABSTOP);
        let width: usize = if grs.len() == 0 {
            0
        } else {
            grs[grs.len() - 1].cell + grs[grs.len() - 1].width
        };
        if width < cell {
            let n = cell - width;
            let mut sp = String::new();
            let mut k: usize = 0;
            while k < n
                invariant
                    k <= n,
                    sp@ == spaces(k as nat),
                decreases n - k,
            {
                sp.push(' ');
                k += 1;
                assert(sp@ =~= spaces(k as nat));
            }
            let at = rope_line_to_char(&self.rope, line) + line_len(&self.rope, line);
            proof {
                lemma_insert_plain(t1, at as int, spaces(n as nat));
            }
            self.insert(at, sp.as_str());
        }
    }

    /// Puts `seg` on line `line` at the first cluster at or after `cell`.
    #[verifier::spinoff_prover]
    fn insert_at_cell(&mut self, line: usize, cell: usize, seg: &str)
        requires
            lf_only(old(self)@.text),
            plain_text(seg@),
            line < line_count(old(self)@.text),
            old(self)@.revision < u64::MAX,
            (old(self)@.text.len() + seg@.len()) * (3 + TABSTOP) <= usize::MAX,
        ensures
            ({
                let t = old(self)@.text;
                let c = spec_line_content(t, line as nat);
                final(self)@ == model_insert(
                    old(self)@,
                    line_start(t, line as nat) + col_for_cell(
                        spec_line_graphemes(c, TABSTOP as nat),
                        cell as int,
                        c.len() as int,
                        0,
                    ),
                    seg@,
                )
            }),
            lf_only(final(self)@.text),
            newlines(final(self)@.text) == newlines(old(self)@.text),
            final(self)@.text.len() <= old(self)@.text.len() + seg@.len(),
            final(self)@.revision <= old(self)@.revision + 1,
            final(self)@.read_only == old(self)@.read_only,
            final(self)@.depth == old(self)@.depth,
            final(self)@.undo == old(self)@.undo,
            final(self)@.open_change == old(self)@.open_change,
            final(self)@.saved_state == old(self)@.saved_state,
    {
        let ghost t2 = self@.text;
        proof {
            assert(t2.len() * (3 + TABSTOP) <= usize::MAX) by (nonlinear_arith)
                requires
                    (t2.len() + seg@.len()) * (3 + TABSTOP) <= usize::MAX,
            ;
            lemma_content_fits(t2, line as nat, TABSTOP as nat);
            lemma_line_start_len(t2, line as nat);
            assert(spec_line_content(t2, line as nat).len() <= line_chars(t2, line as nat).len());
            assert(t2.len() <= usize::MAX) by (nonlinear_arith)
                requires
                    t2.len() * (3 + TABSTOP) <= usize::MAX,
            ;
            assert(line_start(t2, line as nat) + spec_line_content(t2, line as nat).len() <= t2.len());
        }
        let content2 = line_content(&self.rope, line);
        let grs2 = line_graphemes(content2.as_str(), TABSTOP);
        let len2 = line_len(&self.rope, line);
        let mut i: usize = 0;
        let mut col: usize = len2;
        while i < grs2.len()
            invariant_except_break
                i <= grs2@.len(),
                col == len2,
                col_for_cell(grs2@, cell as int, len2 as int, i as int) == col_for_cell(
                    grs2@,
                    cell as int,
                    len2 as int,
                    0,
                ),
            ensures
                col == col_for_cell(grs2@, cell as int, len2 as int, 0),
            decreases grs2@.len() - i,
        {
            if grs2[i].cell >= cell {
                col = grs2[i].char_off;
                break;
            }
            i += 1;
        }
        proof {
            lemma_col_for_cell(grs2@, cell as int, len2 as int, 0);
        }
        let at2 = rope_line_to_char(&self.rope, line) + col;
        proof {
            lemma_insert_plain(t2, at2 as int, seg@);
        }
        self.insert(at2, seg);
    }

    /// One segment of a block put (see [`put_segment`]).
    pub fn put_segment(&mut self, line: usize, cell: usize, seg: &str)
        requires
            lf_only(old(self)@.text),
            !old(self)@.read_only,
            plain_text(seg@),
            old(self)@.revision + line + 3 < u64::MAX,
            (old(self)@.text.len() + line + 1 + cell + seg@.len()) * (3 + TABSTOP) <= usize::MAX,
        ensures
            final(self)@ == put_segment(old(self)@, line as nat, cell as int, seg@),
            lf_only(final(self)@.text),
            newlines(final(self)@.text) <= (if newlines(old(self)@.text) > line + 1 {
                newlines(old(self)@.text) as int
            } else {
                line + 1
            }),
            final(self)@.text.len() <= old(self)@.text.len() + line + 1 + cell + seg@.len(),
            final(self)@.revision <= old(self)@.revision + line + 3,
            final(self)@.read_only == old(self)@.read_only,
            final(self)@.depth == old(self)@.depth,
            final(self)@.undo == old(self)@.undo,
            final(self)@.open_change == old(self)@.open_change,
            final(self)@.saved_state == old(self)@.saved_state,
    {
        let sv = chars_of(seg);
        if sv.len() == 0 {
            return;
        }
        let ghost t0 = self@.text;
        self.grow_to_line(line);
        let ghost t1 = self@.text;
        proof {
            lemma_lf_text_lines(t1);
            lemma_lf_only_lines(t1);
            assert((t1.len() + cell) * (3 + TABSTOP) <= usize::MAX) by (nonlinear_arith)
                requires
                    t1.len() <= t0.len() + line + 1,
                    (t0.len() + line + 1 + cell + seg@.len()) * (3 + TABSTOP) <= usize::MAX,
            ;
        }
        self.pad_to_cell(line, cell);
        let ghost t2 = self@.text;
        proof {
            lemma_lf_only_lines(t2);
            assert((t2.len() + seg@.len()) * (3 + TABSTOP) <= usize::MAX) by (nonlinear_arith)
                requires
                    t2.len() <= t0.len() + line + 1 + cell,
                    (t0.len() + line + 1 + cell + seg@.len()) * (3 + TABSTOP) <= usize::MAX,
            ;
        }
        self.insert_at_cell(line, cell, seg);
    }
}


impl EditState {
    /// A blockwise put in its own change; the cursor stays (see
    /// [`block_put_post`]).
    pub fn put_block_change(&mut self, segs: &Vec<String>, after: bool)
        requires
            block_put_ok(*old(self), seg_texts(segs@)),
        ensures
            block_put_post(*old(self), *final(self), seg_texts(segs@), after),
    {
        self.goal = None;
        self.buffer.begin_change(self.cursor);
        if !self.buffer.read_only {
            self.put_block(segs, after);
        }
        let committed = self.buffer.end_change();
        if committed {
            self.change_started = true;
        }
    }

    /// A blockwise put: each segment on a successive line from the
    /// cursor's, at the cursor's display cell (past the cluster there when
    /// `after`); the cursor stays. Runs inside the caller's change.
    #[verifier::spinoff_prover]
    #[verifier::rlimit(60)]
    pub fn put_block(&mut self, segs: &Vec<String>, after: bool)
        requires
            cursor_ok(old(self).buffer@.text, old(self).cursor),
            block_ok(old(self).buffer@, old(self).cursor, seg_texts(segs@)),
        ensures
            final(self).buffer@ == put_segments(
                old(self).buffer@,
                seg_texts(segs@),
                old(self).cursor.line as nat,
                put_cell(old(self).buffer@.text, old(self).cursor, after),
                segs@.len(),
            ),
            final(self).cursor == old(self).cursor,
            final(self).mode == old(self).mode,
            final(self).goal == old(self).goal,
            final(self).yank_reg == old(self).yank_reg,
            final(self).cut_reg == old(self).cut_reg,
            final(self).last_find == old(self).last_find,
            final(self).change_started == old(self).change_started,
            final(self).buffer@.depth == old(self).buffer@.depth,
            final(self).buffer@.undo == old(self).buffer@.undo,
            final(self).buffer@.open_change == old(self).buffer@.open_change,
            final(self).buffer@.saved_state == old(self).buffer@.saved_state,
            final(self).buffer@.read_only == old(self).buffer@.read_only,
            text_fits(final(self).buffer@.text, TABSTOP as nat),
    {
        let ghost m0 = self.buffer@;
        let ghost t0 = m0.text;
        let ghost sv = seg_texts(segs@);
        let n = segs.len();
        let line0 = self.cursor.line;
        assert(sv.len() == n);
        if n == 0 {
            assert(t0.len() * (3 + TABSTOP) <= usize::MAX);
            return;
        }
        proof {
            assert(t0.len() * 14 * (3 + TABSTOP) <= usize::MAX) by (nonlinear_arith)
                requires
                    n >= 1,
                    (t0.len() + n * (line0 + n + 1 + 14 * t0.len()) + seg_total(sv, n as int)) * (3 + TABSTOP) <= usize::MAX,
            ;
            assert(t0.len() * (3 + TABSTOP) <= usize::MAX) by (nonlinear_arith)
                requires
                    t0.len() * 14 * (3 + TABSTOP) <= usize::MAX,
            ;
            assert(t0.len() * 14 <= usize::MAX) by (nonlinear_arith)
                requires
                    t0.len() * 14 * (3 + TABSTOP) <= usize::MAX,
            ;
        }
        let cell = self.put_cell_of(after);
        let mut i: usize = 0;
        while i < n
            invariant
                n == segs@.len(),
                sv == seg_texts(segs@),
                sv.len() == n,
                t0 == m0.text,
                i <= n,
                line0 == self.cursor.line,
                block_ok(m0, self.cursor, sv),
                cell <= 14 * t0.len(),
                lf_only(self.buffer@.text),
                !self.buffer@.read_only,
                self.buffer@ == put_segments(m0, sv, line0 as nat, cell as int, i as nat),
                self.buffer@.text.len() <= t0.len() + i * (line0 + n + 1 + 14 * t0.len()) + seg_total(sv, i as int),
                self.buffer@.revision <= m0.revision + i * (line0 + n + 3),
                self.buffer@.depth == m0.depth,
                self.buffer@.undo == m0.undo,
                self.buffer@.open_change == m0.open_change,
                self.buffer@.saved_state == m0.saved_state,
                self.cursor == old(self).cursor,
                self.mode == old(self).mode,
                self.goal == old(self).goal,
                self.yank_reg == old(self).yank_reg,
                self.cut_reg == old(self).cut_reg,
                self.last_find == old(self).last_find,
                self.change_started == old(self).change_started,
            decreases n - i,
        {
            let ghost len_i = self.buffer@.text.len();
            let ghost k = line0 + n + 1 + 14 * t0.len();
            proof {
                assert(k == self.cursor.line + sv.len() + 1 + 14 * m0.text.len());
                assert((m0.text.len() + sv.len() * k + seg_total(sv, sv.len() as int)) * (3 + TABSTOP) <= usize::MAX);
                lemma_seg_total_mono(sv, i + 1, n as int);
                assert(sv[i as int] == segs@[i as int]@);
                assert(plain_text(sv[i as int]));
                assert(i * k + k <= n * k) by (nonlinear_arith)
                    requires
                        i < n,
                        k >= 0,
                ;
                assert(i * (line0 + n + 3) + (line0 + n + 3) <= n * (line0 + n + 3)) by (nonlinear_arith)
                    requires
                        i < n,
                ;
                assert((len_i + (line0 + i) + 1 + cell + sv[i as int].len()) * (3 + TABSTOP) <= usize::MAX) by (nonlinear_arith)
                    requires
                        len_i <= t0.len() + i * k + seg_total(sv, i as int),
                        seg_total(sv, i + 1) == seg_total(sv, i as int) + sv[i as int].len(),
                        seg_total(sv, i + 1) <= seg_total(sv, n as int),
                        line0 + i + 1 + cell <= k,
                        i * k + k <= n * k,
                        (t0.len() + n * k + seg_total(sv, n as int)) * (3 + TABSTOP) <= usize::MAX,
                ;
                assert(line0 + i <= usize::MAX) by (nonlinear_arith)
                    requires
                        (len_i + (line0 + i) + 1 + cell + sv[i as int].len()) * (3 + TABSTOP) <= usize::MAX,
                ;
            }
            self.buffer.put_segment(line0 + i, cell, segs[i].as_str());
            proof {
                assert(seg_total(sv, i + 1) == seg_total(sv, i as int) + sv[i as int].len());
                assert((i + 1) * k == i * k + k) by (nonlinear_arith);
                assert((i + 1) * (line0 + n + 3) == i * (line0 + n + 3) + (line0 + n + 3)) by (nonlinear_arith);
            }
            i += 1;
        }
        proof {
            let k = line0 + n + 1 + 14 * t0.len();
            assert(self.buffer@.text.len() * (3 + TABSTOP) <= usize::MAX) by (nonlinear_arith)
                requires
                    self.buffer@.text.len() <= t0.len() + n * k + seg_total(sv, n as int),
                    (t0.len() + n * k + seg_total(sv, n as int)) * (3 + TABSTOP) <= usize::MAX,
            ;
        }
    }

    /// The cell a block put starts at (see [`put_cell`]).
    #[verifier::spinoff_prover]
    fn put_cell_of(&self, after: bool) -> (cell: usize)
        requires
            cursor_ok(self.buffer@.text, self.cursor),
            text_fits(self.buffer@.text, TABSTOP as nat),
            self.buffer@.text.len() * 14 <= usize::MAX,
        ensures
            cell == put_cell(self.buffer@.text, self.cursor, after),
            cell <= 14 * self.buffer@.text.len(),
    {
        let ghost t = self.buffer@.text;
        proof {
            lemma_content_fits(t, self.cursor.line as nat, TABSTOP as nat);
        }
        let content = line_content(&self.buffer.rope, self.cursor.line);
        let grs = line_graphemes(content.as_str(), TABSTOP);
        let ghost total = end_cell(grs@);
        let base = cell_at_col(grs.as_slice(), self.cursor.col);
        proof {
            lemma_cell_within_end(grs@, self.cursor.col as int);
            assert(total <= content@.len() * 7);
            assert(content@.len() * 7 <= t.len() * 7);
        }
        if !after {
            return base;
        }
        let mut i: usize = 0;
        let mut extra: usize = 0;
        while i < grs.len()
            invariant_except_break
                i <= grs@.len(),
                extra == 0,
                starting_at(grs@, self.cursor.col as int, i as int) == starting_at(grs@, self.cursor.col as int, 0),
            ensures
                extra == match starting_at(grs@, self.cursor.col as int, 0) {
                    Some(j) => grs@[j].width as int,
                    None => 0,
                },
            decreases grs@.len() - i,
        {
            if grs[i].char_off == self.cursor.col {
                extra = grs[i].width;
                break;
            }
            i += 1;
        }
        proof {
            lemma_starting_within_end(grs@, self.cursor.col as int, 0);
        }
        base + extra
    }
}

/// A cluster's cell, or the line's end cell, is at most the end cell.
proof fn lemma_cell_within_end(grs: Seq<Gr>, col: int)
    requires
        grs_laid_out(grs, TABSTOP as nat),
    ensures
        (match first_at_col(grs, col, 0) {
            Some(i) => grs[i].cell as int,
            None => end_cell(grs),
        }) <= end_cell(grs),
{
    lemma_first_at_col_range(grs, col, 0);
    if let Some(i) = first_at_col(grs, col, 0) {
        if i < grs.len() - 1 {
            lemma_cells_ordered(grs, TABSTOP as nat, i, grs.len() - 1);
        }
    }
}

/// The width of the cluster starting at a column is at most the end cell.
proof fn lemma_starting_within_end(grs: Seq<Gr>, col: int, i: int)
    requires
        grs_laid_out(grs, TABSTOP as nat),
        0 <= i,
    ensures
        starting_at(grs, col, i) matches Some(j) ==> i <= j < grs.len() && grs[j].width <= end_cell(grs),
    decreases grs.len() - i,
{
    if i < grs.len() {
        if grs[i].char_off == col {
            if i < grs.len() - 1 {
                lemma_cells_ordered(grs, TABSTOP as nat, i, grs.len() - 1);
            }
        } else {
            lemma_starting_within_end(grs, col, i + 1);
        }
    }
}

} // verus!
