//! Insert-mode edits: typed text, backspace, delete, and the `<C-w>` /
//! `<C-u>` deletions. They run inside the change transaction the insert
//! session opened, so none of them opens one.

use vstd::prelude::*;

use crate::chars::chars_of;
use crate::config::TABSTOP;
use crate::editing::buffer::{model_end, model_insert, model_remove, Cursor};
use crate::editing::lines::{
    indent_len, lemma_text_lines_bound, line_content, line_indent, line_len, spec_line_content,
    spec_text_lines, text_lines,
};
use crate::editing::motion::{cursor_ok, lemma_content_fits, text_fits};
use crate::editing::rope::{
    lemma_line_start_len, lemma_line_starts_increase, line_count, line_start, rope_line_to_char,
    rope_text,
};
use crate::editing::text::{
    cell_at_col, char_class, end_cell, first_at_cell, first_at_col, gr_index_at_col, grs_fit,
    line_graphemes, spec_char_class, spec_line_graphemes, CharClass, Gr,
};
use crate::editor::operator::{lemma_cursor_abs, lemma_fits_len, EditState};
use crate::config::keymap::Key;
use crate::editor::Mode;

verus! {

/// Line breaks in a text.
pub open spec fn count_breaks(s: Seq<char>) -> nat
    decreases s.len(),
{
    if s.len() == 0 {
        0
    } else {
        count_breaks(s.drop_last()) + if s.last() == '\n' {
            1nat
        } else {
            0nat
        }
    }
}

/// Chars after the last line break of a text (all of them without one).
pub open spec fn after_last_break(s: Seq<char>) -> nat
    decreases s.len(),
{
    if s.len() == 0 {
        0
    } else if s.last() == '\n' {
        0
    } else {
        after_last_break(s.drop_last()) + 1
    }
}

/// The cursor after typing `text` at `c`: past the text, on the line its
/// last break leads to.
pub open spec fn typed_cursor(c: Cursor, text: Seq<char>) -> Cursor {
    if count_breaks(text) > 0 {
        Cursor { line: (c.line + count_breaks(text)) as usize, col: after_last_break(text) as usize }
    } else {
        Cursor { line: c.line, col: (c.col + text.len()) as usize }
    }
}

proof fn lemma_breaks_le(s: Seq<char>)
    ensures
        count_breaks(s) <= s.len(),
        after_last_break(s) <= s.len(),
    decreases s.len(),
{
    if s.len() > 0 {
        lemma_breaks_le(s.drop_last());
    }
}

/// Everything but the buffer and the cursor stays; the goal column resets.
pub open spec fn insert_rest(s0: EditState, s1: EditState) -> bool {
    &&& s1.goal is None
    &&& s1.mode == s0.mode
    &&& s1.yank_reg == s0.yank_reg
    &&& s1.cut_reg == s0.cut_reg
    &&& s1.last_find == s0.last_find
    &&& s1.change_started == s0.change_started
}

/// `<C-w>`: the column the deletion goes back to: over blanks, then over
/// the run of one class before them.
pub open spec fn word_back_col(c: Seq<char>, col: int) -> int {
    let i = skip_back(c, col, CharClass::Blank, true);
    if i > 0 {
        skip_back(c, i, spec_char_class(c[i - 1], false), true)
    } else {
        i
    }
}

/// Moving back from `i` while the char before has class `cl`.
pub open spec fn skip_back(c: Seq<char>, i: int, cl: CharClass, same: bool) -> int
    decreases i,
{
    if 0 < i <= c.len() && (spec_char_class(c[i - 1], false) == cl) == same {
        skip_back(c, i - 1, cl, same)
    } else {
        i
    }
}

proof fn lemma_skip_back(c: Seq<char>, i: int, cl: CharClass, same: bool)
    requires
        0 <= i,
    ensures
        0 <= skip_back(c, i, cl, same) <= i,
    decreases i,
{
    if 0 < i <= c.len() && (spec_char_class(c[i - 1], false) == cl) == same {
        lemma_skip_back(c, i - 1, cl, same);
    }
}

pub open spec fn typed_post(s0: EditState, s1: EditState, text: Seq<char>) -> bool {
    &&& s1.buffer@ == model_insert(
        s0.buffer@,
        line_start(s0.buffer@.text, s0.cursor.line as nat)
            + s0.cursor.col,
        text,
    )
    &&& s1.cursor == typed_cursor(s0.cursor, text)
    &&& insert_rest(s0, s1)
}

pub open spec fn backspace_post(s0: EditState, s1: EditState) -> bool {
    ({
        let t = s0.buffer@.text;
        let c = s0.cursor;
        let base = line_start(t, c.line as nat);
        let grs = spec_line_graphemes(spec_line_content(t, c.line as nat), TABSTOP as nat);
        let idx = match first_at_col(grs, c.col as int, 0) {
            Some(i) => i,
            None => grs.len() as int,
        };
        if c.col > 0 {
            if idx == 0 {
                s1 == s0
            } else {
                let p = grs[idx - 1];
                &&& s1.buffer@ == model_remove(
                    s0.buffer@,
                    base + p.char_off,
                    base + p.char_off + p.chars,
                )
                &&& s1.cursor == (Cursor { line: c.line, col: p.char_off })
                &&& insert_rest(s0, s1)
            }
        } else if c.line > 0 {
            &&& s1.buffer@ == model_remove(s0.buffer@, base - 1, base)
            &&& s1.cursor == (Cursor {
                line: (c.line - 1) as usize,
                col: spec_line_content(t, (c.line - 1) as nat).len() as usize,
            })
            &&& insert_rest(s0, s1)
        } else {
            &&& s1.buffer@ == s0.buffer@
            &&& s1.cursor == s0.cursor
            &&& insert_rest(s0, s1)
        }
    })
}

pub open spec fn delete_forward_post(s0: EditState, s1: EditState) -> bool {
    ({
        let t = s0.buffer@.text;
        let c = s0.cursor;
        let base = line_start(t, c.line as nat);
        let content = spec_line_content(t, c.line as nat);
        let grs = spec_line_graphemes(content, TABSTOP as nat);
        &&& s1.cursor == s0.cursor
        &&& s1.goal == s0.goal
        &&& s1.buffer@ == (if c.col < content.len() {
            match first_at_col(grs, c.col as int, 0) {
                Some(i) => model_remove(
                    s0.buffer@,
                    base + grs[i].char_off,
                    base + grs[i].char_off + grs[i].chars,
                ),
                None => s0.buffer@,
            }
        } else if c.line + 1 < spec_text_lines(t) {
            model_remove(s0.buffer@, base + c.col, base + c.col + 1)
        } else {
            s0.buffer@
        })
        &&& s1.mode == s0.mode
        &&& s1.yank_reg == s0.yank_reg
        &&& s1.cut_reg == s0.cut_reg
        &&& s1.last_find == s0.last_find
        &&& s1.change_started == s0.change_started
    })
}

pub open spec fn line_start_delete_post(s0: EditState, s1: EditState) -> bool {
    ({
        let t = s0.buffer@.text;
        let c = s0.cursor;
        let base = line_start(t, c.line as nat);
        let indent = indent_len(spec_line_content(t, c.line as nat));
        let start = if c.col > indent {
            indent as int
        } else {
            0
        };
        if start >= c.col {
            s1 == s0
        } else {
            &&& s1.buffer@ == model_remove(s0.buffer@, base + start, base + c.col)
            &&& s1.cursor == (Cursor { line: c.line, col: start as usize })
            &&& insert_rest(s0, s1)
        }
    })
}

pub open spec fn word_back_delete_post(s0: EditState, s1: EditState) -> bool {
    ({
        let t = s0.buffer@.text;
        let c = s0.cursor;
        let base = line_start(t, c.line as nat);
        let i = word_back_col(spec_line_content(t, c.line as nat), c.col as int);
        if c.col == 0 {
            s1 == s0
        } else {
            &&& s1.buffer@ == model_remove(s0.buffer@, base + i, base + c.col)
            &&& s1.cursor == (Cursor { line: c.line, col: i as usize })
            &&& insert_rest(s0, s1)
        }
    })
}


/// The display cell of the cursor on its line.
pub open spec fn cursor_cell(s: EditState) -> int {
    let grs = cur_graphemes(s);
    match first_at_col(grs, s.cursor.col as int, 0) {
        Some(i) => grs[i].cell as int,
        None => end_cell(grs),
    }
}

/// What Tab types (`expandtab` on, shiftwidth four): spaces up to the
/// next shiftwidth stop.
pub open spec fn tab_text(s: EditState) -> Seq<char> {
    Seq::new((4 - cursor_cell(s) % 4) as nat, |i: int| ' ')
}

/// What Enter types: a break and the current line's indent.
pub open spec fn enter_text(s: EditState) -> Seq<char> {
    let c = spec_line_content(s.buffer@.text, s.cursor.line as nat);
    seq!['\n'] + c.take(indent_len(c) as int)
}

/// The keys that leave insert mode.
pub open spec fn leaves_insert(key: Key) -> bool {
    key == Key::Esc || key == Key::Ctrl('c') || key == Key::Ctrl('[')
}

/// What a key does in insert mode, besides leaving it.
pub open spec fn insert_key_post(s0: EditState, s1: EditState, key: Key) -> bool {
    match key {
        Key::Char(c) => typed_post(s0, s1, seq![c]),
        Key::Enter => typed_post(s0, s1, enter_text(s0)),
        Key::Tab => typed_post(s0, s1, tab_text(s0)),
        Key::Backspace => backspace_post(s0, s1),
        Key::Delete => delete_forward_post(s0, s1),
        Key::Ctrl('w') => word_back_delete_post(s0, s1),
        Key::Ctrl('u') => line_start_delete_post(s0, s1),
        Key::Left => moved_only(s0, s1) && s1.cursor == (Cursor {
            line: s0.cursor.line,
            col: left_col(cur_graphemes(s0), s0.cursor.col as int) as usize,
        }),
        Key::Right => moved_only(s0, s1) && s1.cursor == (Cursor {
            line: s0.cursor.line,
            col: right_col(
                cur_graphemes(s0),
                s0.cursor.col as int,
                spec_line_content(s0.buffer@.text, s0.cursor.line as nat).len() as int,
            ) as usize,
        }),
        Key::Home => moved_only(s0, s1) && s1.cursor == (Cursor { line: s0.cursor.line, col: 0 }),
        Key::End => moved_only(s0, s1) && s1.cursor == (Cursor {
            line: s0.cursor.line,
            col: spec_line_content(s0.buffer@.text, s0.cursor.line as nat).len() as usize,
        }),
        Key::Up => vertical_post(s0, s1, false),
        Key::Down => vertical_post(s0, s1, true),
        _ => s1 == s0,
    }
}

impl EditState {
    /// Types `text` at the cursor and moves past it.
    pub fn insert_text(&mut self, text: &str)
        requires
            cursor_ok(old(self).buffer@.text, old(self).cursor),
            old(self).buffer@.revision < u64::MAX,
            old(self).buffer@.text.len() + text@.len() <= usize::MAX,
        ensures
            typed_post(*old(self), *final(self), text@),
    {
        let ghost t = self.buffer@.text;
        let v = chars_of(text);
        proof {
            lemma_cursor_abs(t, self.cursor);
            lemma_breaks_le(v@);
            crate::editing::rope::lemma_breaks_bound(t, t.len() as int);
        }
        let at = rope_line_to_char(&self.buffer.rope, self.cursor.line) + self.cursor.col;
        self.buffer.insert(at, text);
        let mut breaks: usize = 0;
        let mut after: usize = 0;
        let mut i: usize = 0;
        while i < v.len()
            invariant
                i <= v@.len(),
                breaks == count_breaks(v@.take(i as int)),
                after == after_last_break(v@.take(i as int)),
                breaks <= i,
                after <= i,
            decreases v@.len() - i,
        {
            assert(v@.take(i + 1).drop_last() =~= v@.take(i as int));
            if v[i] == '\n' {
                breaks = breaks + 1;
                after = 0;
            } else {
                after = after + 1;
            }
            i = i + 1;
        }
        assert(v@.take(v@.len() as int) =~= v@);
        if breaks > 0 {
            self.cursor = Cursor::new(self.cursor.line + breaks, after);
        } else {
            self.cursor.col = self.cursor.col + v.len();
        }
        self.goal = None;
    }

    /// Backspace: deletes the cluster before the cursor, or joins the line
    /// to the one above at its start.
    pub fn backspace(&mut self)
        requires
            cursor_ok(old(self).buffer@.text, old(self).cursor),
            old(self).buffer@.revision < u64::MAX,
            text_fits(old(self).buffer@.text, TABSTOP as nat),
        ensures
            backspace_post(*old(self), *final(self)),
    {
        let ghost t = self.buffer@.text;
        proof {
            lemma_cursor_abs(t, self.cursor);
            lemma_fits_len(t, TABSTOP as nat);
        }
        if self.cursor.col > 0 {
            proof {
                lemma_content_fits(t, self.cursor.line as nat, TABSTOP as nat);
            }
            let content = line_content(&self.buffer.rope, self.cursor.line);
            let grs = line_graphemes(content.as_str(), TABSTOP);
            let idx = match gr_index_at_col(grs.as_slice(), self.cursor.col) {
                Some(i) => i,
                None => grs.len(),
            };
            if idx == 0 {
                return;
            }
            let p = grs[idx - 1];
            assert(p.char_off + p.chars <= content@.len());
            let base = rope_line_to_char(&self.buffer.rope, self.cursor.line);
            self.buffer.remove(base + p.char_off, base + p.char_off + p.chars);
            self.cursor.col = p.char_off;
        } else if self.cursor.line > 0 {
            let prev_len = line_len(&self.buffer.rope, self.cursor.line - 1);
            proof {
                lemma_line_starts_increase(t, (self.cursor.line - 1) as nat);
                lemma_line_start_len(t, (self.cursor.line - 1) as nat);
            }
            let nl = rope_line_to_char(&self.buffer.rope, self.cursor.line) - 1;
            self.buffer.remove(nl, nl + 1);
            self.cursor = Cursor::new(self.cursor.line - 1, prev_len);
        }
        self.goal = None;
    }

    /// Delete: removes the cluster under the cursor, or at a line's end the
    /// break joining the next line (the text's final break stays).
    pub fn delete_forward(&mut self)
        requires
            cursor_ok(old(self).buffer@.text, old(self).cursor),
            old(self).buffer@.revision < u64::MAX,
            text_fits(old(self).buffer@.text, TABSTOP as nat),
            crate::editing::rope::lf_breaks(old(self).buffer@.text),
        ensures
            delete_forward_post(*old(self), *final(self)),
    {
        let ghost t = self.buffer@.text;
        proof {
            lemma_cursor_abs(t, self.cursor);
            lemma_fits_len(t, TABSTOP as nat);
            lemma_text_lines_bound(t);
            crate::editing::rope::lemma_breaks_bound(t, t.len() as int);
        }
        let len = line_len(&self.buffer.rope, self.cursor.line);
        if self.cursor.col < len {
            proof {
                lemma_content_fits(t, self.cursor.line as nat, TABSTOP as nat);
            }
            let content = line_content(&self.buffer.rope, self.cursor.line);
            let grs = line_graphemes(content.as_str(), TABSTOP);
            if let Some(i) = gr_index_at_col(grs.as_slice(), self.cursor.col) {
                let g = grs[i];
                assert(g.char_off + g.chars <= content@.len());
                let base = rope_line_to_char(&self.buffer.rope, self.cursor.line);
                self.buffer.remove(base + g.char_off, base + g.char_off + g.chars);
            }
        } else if self.cursor.line + 1 < text_lines(&self.buffer.rope) {
            proof {
                crate::editing::rope::lemma_line_ends_lf(t, self.cursor.line as nat);
                lemma_line_start_len(t, self.cursor.line as nat);
            }
            let at = rope_line_to_char(&self.buffer.rope, self.cursor.line) + self.cursor.col;
            self.buffer.remove(at, at + 1);
        }
    }

    /// `<C-u>`: deletes back to the indent, or to the line start from
    /// within the indent.
    pub fn delete_to_line_start(&mut self)
        requires
            cursor_ok(old(self).buffer@.text, old(self).cursor),
            old(self).buffer@.revision < u64::MAX,
            text_fits(old(self).buffer@.text, TABSTOP as nat),
        ensures
            line_start_delete_post(*old(self), *final(self)),
    {
        let ghost t = self.buffer@.text;
        proof {
            lemma_cursor_abs(t, self.cursor);
            lemma_fits_len(t, TABSTOP as nat);
            crate::editor::operator::lemma_indent_len(spec_line_content(t, self.cursor.line as nat));
        }
        let indent = line_indent(&self.buffer.rope, self.cursor.line);
        let n = chars_of(indent.as_str()).len();
        let start = if self.cursor.col > n {
            n
        } else {
            0
        };
        if start >= self.cursor.col {
            return;
        }
        let base = rope_line_to_char(&self.buffer.rope, self.cursor.line);
        self.buffer.remove(base + start, base + self.cursor.col);
        self.cursor.col = start;
        self.goal = None;
    }

    /// `<C-w>`: deletes back over blanks and then over the word (or run of
    /// punctuation) before them.
    pub fn delete_word_back(&mut self)
        requires
            cursor_ok(old(self).buffer@.text, old(self).cursor),
            old(self).buffer@.revision < u64::MAX,
            text_fits(old(self).buffer@.text, TABSTOP as nat),
        ensures
            word_back_delete_post(*old(self), *final(self)),
    {
        if self.cursor.col == 0 {
            return;
        }
        let ghost t = self.buffer@.text;
        proof {
            lemma_cursor_abs(t, self.cursor);
            lemma_fits_len(t, TABSTOP as nat);
        }
        let content = line_content(&self.buffer.rope, self.cursor.line);
        let chars = chars_of(content.as_str());
        let ghost cs = chars@;
        let mut i = self.cursor.col;
        while i > 0 && char_class(chars[i - 1], false) == CharClass::Blank
            invariant
                cs == chars@,
                i <= self.cursor.col <= cs.len(),
                skip_back(cs, i as int, CharClass::Blank, true) == skip_back(
                    cs,
                    self.cursor.col as int,
                    CharClass::Blank,
                    true,
                ),
            decreases i,
        {
            i = i - 1;
        }
        if i > 0 {
            let cl = char_class(chars[i - 1], false);
            let ghost i0 = i as int;
            while i > 0 && char_class(chars[i - 1], false) == cl
                invariant
                    cs == chars@,
                    i <= i0 <= cs.len(),
                    skip_back(cs, i as int, cl, true) == skip_back(cs, i0, cl, true),
                decreases i,
            {
                i = i - 1;
            }
        }
        let base = rope_line_to_char(&self.buffer.rope, self.cursor.line);
        self.buffer.remove(base + i, base + self.cursor.col);
        self.cursor.col = i;
        self.goal = None;
    }
}

/// Up (`down == false`) or down in insert mode.
pub open spec fn vertical_post(s0: EditState, s1: EditState, down: bool) -> bool {
    ({
        let t = s0.buffer@.text;
        let c = s0.cursor;
        let last = spec_text_lines(t) - 1;
        if (!down && c.line == 0) || (down && c.line >= last) {
            s1 == s0
        } else {
            let line = if down {
                c.line + 1
            } else {
                c.line - 1
            };
            let grs = cur_graphemes(s0);
            let g: int = match s0.goal {
                Some(x) => x as int,
                None => match first_at_col(grs, c.col as int, 0) {
                    Some(i) => grs[i].cell as int,
                    None => end_cell(grs),
                },
            };
            let tc = spec_line_content(t, line as nat);
            let tg = spec_line_graphemes(tc, TABSTOP as nat);
            &&& s1.cursor == (Cursor {
                line: line as usize,
                col: insert_goal_col(tg, tc.len() as int, g) as usize,
            })
            &&& s1.goal == Some(g as usize)
            &&& s1.buffer == s0.buffer
            &&& s1.mode == s0.mode
            &&& s1.yank_reg == s0.yank_reg
            &&& s1.cut_reg == s0.cut_reg
            &&& s1.last_find == s0.last_find
            &&& s1.change_started == s0.change_started
        }
    })
}

/// The clusters of the cursor's line.
pub open spec fn cur_graphemes(s: EditState) -> Seq<Gr> {
    spec_line_graphemes(spec_line_content(s.buffer@.text, s.cursor.line as nat), TABSTOP as nat)
}

/// Only the cursor moved; the goal column reset.
pub open spec fn moved_only(s0: EditState, s1: EditState) -> bool {
    &&& s1.buffer == s0.buffer
    &&& insert_rest(s0, s1)
}

/// Left in insert mode: to the start of the cluster before the cursor
/// (past the line's end: of the last cluster).
pub open spec fn left_col(grs: Seq<Gr>, col: int) -> int {
    match first_at_col(grs, col, 0) {
        Some(i) => if i > 0 {
            grs[i - 1].char_off as int
        } else {
            col
        },
        None => if grs.len() > 0 {
            grs.last().char_off as int
        } else {
            col
        },
    }
}

/// Right in insert mode: past the cluster under the cursor, at most to the
/// line's end.
pub open spec fn right_col(grs: Seq<Gr>, col: int, len: int) -> int {
    match first_at_col(grs, col, 0) {
        Some(i) => if grs[i].char_off + grs[i].chars < len {
            grs[i].char_off + grs[i].chars
        } else {
            len
        },
        None => col,
    }
}

/// Leaving insert mode steps back onto the cluster before the cursor
/// (onto the one under it at the line's start, onto the last one past the
/// line's end).
pub open spec fn leave_col(grs: Seq<Gr>, col: int) -> int {
    match first_at_col(grs, col, 0) {
        Some(i) => if i > 0 {
            grs[i - 1].char_off as int
        } else {
            grs[i].char_off as int
        },
        None => if grs.len() > 0 {
            grs.last().char_off as int
        } else {
            0
        },
    }
}

/// The column a goal cell leads to on a line in insert mode: the line's end
/// at or past its width, else the cluster covering the cell.
pub open spec fn insert_goal_col(tg: Seq<Gr>, len: int, goal: int) -> int {
    if goal >= end_cell(tg) {
        len
    } else {
        match first_at_cell(tg, goal, 0) {
            Some(i) => tg[i].char_off as int,
            None => len,
        }
    }
}

impl EditState {
    /// Left arrow in insert mode.
    pub fn insert_left(&mut self)
        requires
            cursor_ok(old(self).buffer@.text, old(self).cursor),
            text_fits(old(self).buffer@.text, TABSTOP as nat),
        ensures
            moved_only(*old(self), *final(self)),
            final(self).cursor == (Cursor {
                line: old(self).cursor.line,
                col: left_col(cur_graphemes(*old(self)), old(self).cursor.col as int) as usize,
            }),
            cursor_ok(final(self).buffer@.text, final(self).cursor),
    {
        let ghost t = self.buffer@.text;
        proof {
            lemma_content_fits(t, self.cursor.line as nat, TABSTOP as nat);
        }
        let content = line_content(&self.buffer.rope, self.cursor.line);
        let grs = line_graphemes(content.as_str(), TABSTOP);
        match gr_index_at_col(grs.as_slice(), self.cursor.col) {
            Some(i) => {
                if i > 0 {
                    self.cursor.col = grs[i - 1].char_off;
                }
            },
            None => {
                if grs.len() > 0 {
                    self.cursor.col = grs[grs.len() - 1].char_off;
                }
            },
        }
        self.goal = None;
    }

    /// Right arrow in insert mode.
    pub fn insert_right(&mut self)
        requires
            cursor_ok(old(self).buffer@.text, old(self).cursor),
            text_fits(old(self).buffer@.text, TABSTOP as nat),
        ensures
            moved_only(*old(self), *final(self)),
            final(self).cursor == (Cursor {
                line: old(self).cursor.line,
                col: right_col(
                    cur_graphemes(*old(self)),
                    old(self).cursor.col as int,
                    spec_line_content(old(self).buffer@.text, old(self).cursor.line as nat).len() as int,
                ) as usize,
            }),
            cursor_ok(final(self).buffer@.text, final(self).cursor),
    {
        let ghost t = self.buffer@.text;
        proof {
            lemma_content_fits(t, self.cursor.line as nat, TABSTOP as nat);
        }
        let len = line_len(&self.buffer.rope, self.cursor.line);
        let content = line_content(&self.buffer.rope, self.cursor.line);
        let grs = line_graphemes(content.as_str(), TABSTOP);
        if let Some(i) = gr_index_at_col(grs.as_slice(), self.cursor.col) {
            let end = grs[i].char_off + grs[i].chars;
            self.cursor.col = if end < len {
                end
            } else {
                len
            };
        }
        self.goal = None;
    }

    /// Home in insert mode.
    pub fn insert_home(&mut self)
        ensures
            moved_only(*old(self), *final(self)),
            final(self).cursor == (Cursor { line: old(self).cursor.line, col: 0 }),
    {
        self.cursor.col = 0;
        self.goal = None;
    }

    /// End in insert mode: past the line's last char.
    pub fn insert_end(&mut self)
        requires
            cursor_ok(old(self).buffer@.text, old(self).cursor),
        ensures
            moved_only(*old(self), *final(self)),
            final(self).cursor == (Cursor {
                line: old(self).cursor.line,
                col: spec_line_content(old(self).buffer@.text, old(self).cursor.line as nat).len() as usize,
            }),
    {
        self.cursor.col = line_len(&self.buffer.rope, self.cursor.line);
        self.goal = None;
    }

    /// Up (`down == false`) or down one line in insert mode, keeping the
    /// goal cell; nothing happens at the first or the last line.
    pub fn insert_vertical(&mut self, down: bool)
        requires
            cursor_ok(old(self).buffer@.text, old(self).cursor),
            text_fits(old(self).buffer@.text, TABSTOP as nat),
        ensures
            vertical_post(*old(self), *final(self), down),
            cursor_ok(final(self).buffer@.text, final(self).cursor),
    {
        let ghost t = self.buffer@.text;
        proof {
            lemma_text_lines_bound(t);
            crate::editing::rope::lemma_breaks_bound(t, t.len() as int);
            lemma_content_fits(t, self.cursor.line as nat, TABSTOP as nat);
        }
        let last = text_lines(&self.buffer.rope) - 1;
        let line = if down {
            if self.cursor.line >= last {
                return;
            }
            self.cursor.line + 1
        } else {
            if self.cursor.line == 0 {
                return;
            }
            self.cursor.line - 1
        };
        let content = line_content(&self.buffer.rope, self.cursor.line);
        let grs = line_graphemes(content.as_str(), TABSTOP);
        let goal = match self.goal {
            Some(g) => g,
            None => cell_at_col(grs.as_slice(), self.cursor.col),
        };
        proof {
            lemma_content_fits(t, line as nat, TABSTOP as nat);
        }
        let tcontent = line_content(&self.buffer.rope, line);
        let tgrs = line_graphemes(tcontent.as_str(), TABSTOP);
        let len = line_len(&self.buffer.rope, line);
        let width: usize = if tgrs.len() == 0 {
            0
        } else {
            tgrs[tgrs.len() - 1].cell + tgrs[tgrs.len() - 1].width
        };
        let col = if goal >= width {
            len
        } else {
            proof {
                crate::editing::text::lemma_first_at_cell_range(tgrs@, goal as int, 0);
            }
            let mut i: usize = 0;
            let mut found: usize = len;
            while i < tgrs.len()
                invariant_except_break
                    i <= tgrs@.len(),
                    grs_fit(tgrs@),
                    found == len,
                    first_at_cell(tgrs@, goal as int, 0) == first_at_cell(tgrs@, goal as int, i as int),
                ensures
                    found == (match first_at_cell(tgrs@, goal as int, 0) {
                        Some(j) => tgrs@[j].char_off as int,
                        None => len as int,
                    }),
                decreases tgrs@.len() - i,
            {
                let g = tgrs[i];
                if goal < g.cell + g.width {
                    found = g.char_off;
                    break;
                }
                i += 1;
            }
            found
        };
        proof {
            if goal < width {
                crate::editing::text::lemma_first_at_cell_range(tgrs@, goal as int, 0);
            }
        }
        self.cursor = Cursor::new(line, col);
        self.goal = Some(goal);
    }

    /// Leaving insert mode: the change transaction closes, the mode returns
    /// to normal and the cursor steps back onto a cluster. Whether the
    /// session changed the text comes back.
    pub fn leave_insert(&mut self) -> (changed: bool)
        requires
            cursor_ok(old(self).buffer@.text, old(self).cursor),
            text_fits(old(self).buffer@.text, TABSTOP as nat),
        ensures
            (final(self).buffer@, changed) == model_end(old(self).buffer@),
            final(self).cursor == (Cursor {
                line: old(self).cursor.line,
                col: leave_col(cur_graphemes(*old(self)), old(self).cursor.col as int) as usize,
            }),
            final(self).mode == Mode::Normal,
            final(self).goal is None,
            final(self).yank_reg == old(self).yank_reg,
            final(self).cut_reg == old(self).cut_reg,
            final(self).last_find == old(self).last_find,
            final(self).change_started == old(self).change_started,
    {
        let ghost t = self.buffer@.text;
        proof {
            lemma_content_fits(t, self.cursor.line as nat, TABSTOP as nat);
        }
        let content = line_content(&self.buffer.rope, self.cursor.line);
        let grs = line_graphemes(content.as_str(), TABSTOP);
        let changed = self.buffer.end_change();
        self.mode = Mode::Normal;
        self.goal = None;
        self.cursor.col = match gr_index_at_col(grs.as_slice(), self.cursor.col) {
            Some(i) => if i > 0 {
                grs[i - 1].char_off
            } else {
                grs[i].char_off
            },
            None => if grs.len() > 0 {
                grs[grs.len() - 1].char_off
            } else {
                0
            },
        };
        changed
    }

    /// A key in insert mode: typed text, Enter (with the line's indent),
    /// Tab, the deletions and the cursor keys. The keys that leave insert
    /// mode change nothing here and return `true`.
    pub fn insert_key(&mut self, key: Key) -> (leave: bool)
        requires
            cursor_ok(old(self).buffer@.text, old(self).cursor),
            old(self).buffer@.revision < u64::MAX,
            text_fits(old(self).buffer@.text, TABSTOP as nat),
            crate::editing::rope::lf_breaks(old(self).buffer@.text),
        ensures
            leave == leaves_insert(key),
            leave ==> *final(self) == *old(self),
            !leave ==> insert_key_post(*old(self), *final(self), key),
    {
        let ghost t = self.buffer@.text;
        proof {
            lemma_fits_len(t, TABSTOP as nat);
        }
        match key {
            Key::Esc => true,
            Key::Ctrl('c') => true,
            Key::Ctrl('[') => true,
            Key::Char(c) => {
                let mut typed = String::new();
                typed.push(c);
                assert(typed@ =~= seq![c]);
                self.insert_text(typed.as_str());
                false
            },
            Key::Enter => {
                let indent = line_indent(&self.buffer.rope, self.cursor.line);
                let mut typed = String::new();
                typed.push('\n');
                crate::chars::push_str(&mut typed, indent.as_str());
                proof {
                    crate::editor::operator::lemma_indent_len(spec_line_content(t, self.cursor.line as nat));
                    lemma_line_start_len(t, self.cursor.line as nat);
                    assert(typed@ =~= enter_text(*self));
                }
                self.insert_text(typed.as_str());
                false
            },
            Key::Tab => {
                let opts = crate::config::options();
                if opts.expandtab {
                    proof {
                        lemma_content_fits(t, self.cursor.line as nat, TABSTOP as nat);
                    }
                    let content = line_content(&self.buffer.rope, self.cursor.line);
                    let grs = line_graphemes(content.as_str(), TABSTOP);
                    let cell = cell_at_col(grs.as_slice(), self.cursor.col);
                    let n = opts.shiftwidth - (cell % opts.shiftwidth);
                    let mut typed = String::new();
                    let mut k: usize = 0;
                    while k < n
                        invariant
                            k <= n,
                            typed@ == Seq::new(k as nat, |i: int| ' '),
                        decreases n - k,
                    {
                        typed.push(' ');
                        k += 1;
                        assert(typed@ =~= Seq::new(k as nat, |i: int| ' '));
                    }
                    assert(typed@ =~= tab_text(*self));
                    self.insert_text(typed.as_str());
                } else {
                    let mut typed = String::new();
                    typed.push('\t');
                    self.insert_text(typed.as_str());
                }
                false
            },
            Key::Backspace => {
                self.backspace();
                false
            },
            Key::Delete => {
                self.delete_forward();
                false
            },
            Key::Ctrl('w') => {
                self.delete_word_back();
                false
            },
            Key::Ctrl('u') => {
                self.delete_to_line_start();
                false
            },
            Key::Left => {
                self.insert_left();
                false
            },
            Key::Right => {
                self.insert_right();
                false
            },
            Key::Up => {
                self.insert_vertical(false);
                false
            },
            Key::Down => {
                self.insert_vertical(true);
                false
            },
            Key::Home => {
                self.insert_home();
                false
            },
            Key::End => {
                self.insert_end();
                false
            },
            _ => false,
        }
    }
}

} // verus!
