//! Entering insert mode: where the cursor goes for each entry key, and the
//! change transaction the insert session runs in.

use vstd::prelude::*;

use crate::config::TABSTOP;
use crate::editing::buffer::{model_begin, model_insert, BufModel, Cursor};
use crate::editing::commands::InsertEntry;
use crate::editing::lines::{
    first_non_blank, first_non_blank_from, indent_len, lemma_first_non_blank_from, line_content,
    line_indent, line_len, spec_first_non_blank, spec_line_content,
};
use crate::editing::motion::{cursor_ok, lemma_content_fits, text_fits};
use crate::editing::rope::{
    lemma_line_start_len, line_count, line_start, rope_len_chars, rope_len_lines,
    rope_line_to_char,
};
use crate::editing::text::{first_at_col, gr_index_at_col, line_graphemes, spec_line_graphemes};
use crate::editor::operator::{counters_fit, lemma_fits_len, lemma_indent_len, EditState};
use crate::editor::Mode;

verus! {

/// Where `I` enters: after all the blanks of a blank line, else at the
/// first non-blank.
pub open spec fn first_non_blank_entry(c: Seq<char>) -> int {
    if first_non_blank_from(c, 0) is None {
        c.len() as int
    } else {
        spec_first_non_blank(c)
    }
}

/// The column an entry that stays on the line starts at.
pub open spec fn entry_col(t: Seq<char>, c: Cursor, entry: InsertEntry) -> int {
    let content = spec_line_content(t, c.line as nat);
    let grs = spec_line_graphemes(content, TABSTOP as nat);
    match entry {
        InsertEntry::FirstNonBlank => first_non_blank_entry(content),
        InsertEntry::After => match first_at_col(grs, c.col as int, 0) {
            Some(i) => grs[i].char_off + grs[i].chars,
            None => content.len() as int,
        },
        InsertEntry::LineEnd => content.len() as int,
        _ => c.col as int,
    }
}

/// After entering insert mode by `entry`: the session's transaction is
/// open; `o` and `O` have opened a line carrying the current indent (their
/// snapshot puts the cursor back on the first non-blank of the original
/// line); the others have moved the cursor, and snapshot where the insert
/// begins.
pub open spec fn entry_post(s0: EditState, s1: EditState, entry: InsertEntry) -> bool {
    let t = s0.buffer@.text;
    let l = s0.cursor.line;
    let content = spec_line_content(t, l as nat);
    let indent = content.take(indent_len(content) as int);
    let back = Cursor { line: l, col: spec_first_non_blank(content) as usize };
    &&& s1.mode == Mode::Insert
    &&& s1.goal is None
    &&& s1.yank_reg == s0.yank_reg
    &&& s1.cut_reg == s0.cut_reg
    &&& s1.last_find == s0.last_find
    &&& s1.change_started == s0.change_started
    &&& match entry {
        InsertEntry::OpenBelow => {
            let at = if l + 1 >= line_count(t) {
                t.len() as int
            } else {
                line_start(t, (l + 1) as nat)
            };
            &&& s1.buffer@ == model_insert(model_begin(s0.buffer@, back), at, indent.push('\n'))
            &&& s1.cursor == (Cursor { line: (l + 1) as usize, col: indent.len() as usize })
        },
        InsertEntry::OpenAbove => {
            &&& s1.buffer@ == model_insert(
                model_begin(s0.buffer@, back),
                line_start(t, l as nat),
                indent.push('\n'),
            )
            &&& s1.cursor == (Cursor { line: l, col: indent.len() as usize })
        },
        _ => {
            let c = Cursor { line: l, col: entry_col(t, s0.cursor, entry) as usize };
            &&& s1.buffer@ == model_begin(s0.buffer@, c)
            &&& s1.cursor == c
        },
    }
}

impl EditState {
    /// `h`, `H`, `a`, `A`, `o`, `O`: enters insert mode.
    pub fn enter_insert(&mut self, entry: InsertEntry)
        requires
            cursor_ok(old(self).buffer@.text, old(self).cursor),
            text_fits(old(self).buffer@.text, TABSTOP as nat),
            counters_fit(*old(self)),
        ensures
            entry_post(*old(self), *final(self), entry),
    {
        let ghost t = self.buffer@.text;
        proof {
            lemma_fits_len(t, TABSTOP as nat);
            lemma_content_fits(t, self.cursor.line as nat, TABSTOP as nat);
            crate::editing::rope::lemma_breaks_bound(t, t.len() as int);
        }
        self.goal = None;
        let line = self.cursor.line;
        match entry {
            InsertEntry::Before => {
                self.buffer.begin_change(self.cursor);
            },
            InsertEntry::FirstNonBlank => {
                let content = line_content(&self.buffer.rope, line);
                let v = crate::chars::chars_of(content.as_str());
                let mut i: usize = 0;
                let mut blank = true;
                while i < v.len()
                    invariant_except_break
                        i <= v@.len(),
                        v@ == content@,
                        first_non_blank_from(v@, 0) == first_non_blank_from(v@, i as int),
                        blank,
                    ensures
                        blank == (first_non_blank_from(v@, 0) is None),
                    decreases v@.len() - i,
                {
                    if !v[i].is_whitespace() {
                        blank = false;
                        break;
                    }
                    i += 1;
                }
                self.cursor.col = if blank {
                    line_len(&self.buffer.rope, line)
                } else {
                    first_non_blank(&self.buffer.rope, line)
                };
                self.buffer.begin_change(self.cursor);
            },
            InsertEntry::After => {
                let content = line_content(&self.buffer.rope, line);
                let grs = line_graphemes(content.as_str(), TABSTOP);
                self.cursor.col = match gr_index_at_col(grs.as_slice(), self.cursor.col) {
                    Some(i) => grs[i].char_off + grs[i].chars,
                    None => line_len(&self.buffer.rope, line),
                };
                self.buffer.begin_change(self.cursor);
            },
            InsertEntry::LineEnd => {
                self.cursor.col = line_len(&self.buffer.rope, line);
                self.buffer.begin_change(self.cursor);
            },
            InsertEntry::OpenBelow => {
                let indent = line_indent(&self.buffer.rope, line);
                let at = if line + 1 >= rope_len_lines(&self.buffer.rope) {
                    rope_len_chars(&self.buffer.rope)
                } else {
                    rope_line_to_char(&self.buffer.rope, line + 1)
                };
                proof {
                    lemma_indent_len(spec_line_content(t, line as nat));
                    crate::editing::rope::lemma_line_start_len(t, line as nat);
                    if line + 1 < line_count(t) {
                        crate::editing::rope::lemma_line_starts_increase(t, line as nat);
                        lemma_line_start_len(t, (line + 1) as nat);
                    }
                }
                let back = Cursor::new(line, first_non_blank(&self.buffer.rope, line));
                self.buffer.begin_change(back);
                let mut typed = String::new();
                crate::chars::push_str(&mut typed, indent.as_str());
                typed.push('\n');
                assert(typed@ =~= indent@.push('\n'));
                self.buffer.insert(at, typed.as_str());
                let n = crate::chars::chars_of(indent.as_str()).len();
                self.cursor = Cursor::new(line + 1, n);
            },
            InsertEntry::OpenAbove => {
                let indent = line_indent(&self.buffer.rope, line);
                let at = rope_line_to_char(&self.buffer.rope, line);
                proof {
                    lemma_indent_len(spec_line_content(t, line as nat));
                    lemma_line_start_len(t, line as nat);
                }
                let back = Cursor::new(line, first_non_blank(&self.buffer.rope, line));
                self.buffer.begin_change(back);
                let mut typed = String::new();
                crate::chars::push_str(&mut typed, indent.as_str());
                typed.push('\n');
                assert(typed@ =~= indent@.push('\n'));
                self.buffer.insert(at, typed.as_str());
                let n = crate::chars::chars_of(indent.as_str()).len();
                self.cursor = Cursor::new(line, n);
            },
        }
        self.mode = Mode::Insert;
    }
}

} // verus!
