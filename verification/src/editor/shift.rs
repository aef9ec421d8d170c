//! `>` and `<`: shifting whole lines right or left by one shiftwidth, in
//! one change.

use vstd::prelude::*;

use crate::chars::chars_of;
use crate::config::SHIFTWIDTH;
use crate::editing::buffer::{model_begin, model_end, model_insert, model_remove, BufModel, Cursor};
use crate::editing::lines::{
    first_non_blank, lemma_text_lines_bound, line_content, spec_first_non_blank, spec_line_content,
    spec_text_lines, text_lines,
};
use crate::editing::rope::{
    lemma_line_start_len, lemma_lf_only_lines, lemma_newlines_add, lf_only, line_chars, line_count,
    line_start, newlines, odd_break, rope_line_to_char, rope_text,
};
use crate::editor::block::{lemma_insert_plain, plain_text, spaces};
use crate::editing::commands::Op;
use crate::editing::motion::{resolvable, Motion};
use crate::editing::rope::{breaks_upto, rope_char_to_line};
use crate::config::TABSTOP;
use crate::editor::operator::{counters_fit, operator_target, spec_target, EditState, Span};

verus! {

/// The number of leading spaces of `c` from `i` on, at most `cap` in all.
pub open spec fn lead_spaces(c: Seq<char>, i: int, cap: int) -> int
    decreases cap - i,
{
    if 0 <= i < c.len() && i < cap && c[i] == ' ' {
        lead_spaces(c, i + 1, cap)
    } else {
        i
    }
}

/// What `<` takes from the start of a line: a leading tab, else up to a
/// shiftwidth of leading spaces.
pub open spec fn dedent_len(c: Seq<char>) -> int {
    if c.len() > 0 && c[0] == '\t' {
        1
    } else {
        lead_spaces(c, 0, SHIFTWIDTH as int)
    }
}

/// Line `l` shifted once: right by a shiftwidth of spaces (an empty line
/// stays empty), or left by what [`dedent_len`] gives.
pub open spec fn shift_line(m: BufModel, l: nat, right: bool) -> BufModel {
    let c = spec_line_content(m.text, l);
    let ls = line_start(m.text, l);
    if right {
        if c.len() == 0 {
            m
        } else {
            model_insert(m, ls, spaces(SHIFTWIDTH as nat))
        }
    } else {
        model_remove(m, ls, ls + dedent_len(c))
    }
}

/// Lines `l1 .. l1 + k` shifted, top to bottom.
pub open spec fn shifted(m: BufModel, l1: nat, k: nat, right: bool) -> BufModel
    decreases k,
{
    if k == 0 {
        m
    } else {
        shift_line(shifted(m, l1, (k - 1) as nat, right), (l1 + k - 1) as nat, right)
    }
}

/// After `>`/`<` over lines `l1..=l2` (each clamped to the last line): the
/// lines shifted in one change, the cursor on the first non-blank of the
/// first line.
pub open spec fn shift_post(s0: EditState, s1: EditState, l1: int, l2: int, right: bool) -> bool {
    let t = s0.buffer@.text;
    let last = spec_text_lines(t) - 1;
    let a = if l1 < last { l1 } else { last };
    let b = if l2 < last { l2 } else { last };
    let m1 = model_begin(s0.buffer@, s0.cursor);
    let (m3, committed) = model_end(shifted(m1, a as nat, (b - a + 1) as nat, right));
    &&& s1.buffer@ == m3
    &&& s1.cursor == Cursor {
        line: a as usize,
        col: spec_first_non_blank(spec_line_content(m3.text, a as nat)) as usize,
    }
    &&& s1.goal is None
    &&& s1.change_started == (s0.change_started || committed)
    &&& s1.mode == s0.mode
    &&& s1.yank_reg == s0.yank_reg
    &&& s1.cut_reg == s0.cut_reg
    &&& s1.last_find == s0.last_find
}

/// What shifting asks: an LF-only text, room for a shiftwidth more per
/// line, and room in the revision counter for a change per line.
pub open spec fn shift_ok(s: EditState) -> bool {
    let t = s.buffer@.text;
    &&& lf_only(t)
    &&& counters_fit(s)
    &&& t.len() + SHIFTWIDTH * line_count(t) <= usize::MAX
    &&& s.buffer@.revision + line_count(t) + 2 < u64::MAX
}

/// Removing chars that are no line breaks keeps an LF-only text LF-only,
/// with as many `\n`s.
pub proof fn lemma_remove_plain(t: Seq<char>, a: int, b: int)
    requires
        lf_only(t),
        0 <= a <= b <= t.len(),
        forall|k: int| a <= k < b ==> #[trigger] t[k] != '\n',
    ensures
        lf_only(t.take(a) + t.skip(b)),
        newlines(t.take(a) + t.skip(b)) == newlines(t),
{
    let u = t.take(a) + t.skip(b);
    assert forall|k: int| 0 <= k < u.len() implies !odd_break(#[trigger] u[k]) by {
        if k < a {
            assert(u[k] == t[k]);
        } else {
            assert(u[k] == t[k + (b - a)]);
        }
    }
    let mid = t.subrange(a, b);
    assert(t =~= t.take(a) + mid + t.skip(b));
    crate::editing::rope::lemma_newlines_none(mid);
    lemma_newlines_add(t.take(a) + mid, t.skip(b));
    lemma_newlines_add(t.take(a), mid);
    lemma_newlines_add(t.take(a), t.skip(b));
}

/// A line's content sits at its start in the text.
pub proof fn lemma_content_at(t: Seq<char>, l: nat)
    ensures
        line_start(t, l) + spec_line_content(t, l).len() <= t.len(),
        forall|j: int|
            0 <= j < spec_line_content(t, l).len() ==> #[trigger] spec_line_content(t, l)[j] == t[line_start(
                t,
                l,
            ) + j],
{
    lemma_line_start_len(t, l);
    let c = line_chars(t, l);
    assert forall|j: int| 0 <= j < spec_line_content(t, l).len() implies #[trigger] spec_line_content(
        t,
        l,
    )[j] == t[line_start(t, l) + j] by {
        assert(spec_line_content(t, l)[j] == c[j]);
    };
}

/// A line's content holds no `\n`.
pub proof fn lemma_content_no_newline(t: Seq<char>, l: nat)
    requires
        l < line_count(t),
    ensures
        forall|j: int| 0 <= j < spec_line_content(t, l).len() ==> #[trigger] spec_line_content(t, l)[j] != '\n',
{
    lemma_content_at(t, l);
    lemma_line_start_len(t, l);
    crate::editing::rope::lemma_line_start_breaks(t, l);
    let ls = line_start(t, l);
    let c = spec_line_content(t, l);
    let lc = line_chars(t, l);
    assert forall|j: int| 0 <= j < c.len() implies #[trigger] c[j] != '\n' by {
        if c[j] == '\n' {
            let p = ls + j + 1;
            assert(t[p - 1] == '\n');
            assert(crate::editing::rope::is_break_end(t, p));
            crate::editing::rope::lemma_breaks_mono(t, ls, p - 1);
            assert(crate::editing::rope::breaks_upto(t, p) >= l + 1);
            crate::editing::rope::lemma_breaks_bound(t, t.len() as int);
            crate::editing::rope::lemma_first_reaching(t, l + 1, 1);
            if p == ls + lc.len() {
                assert(lc.last() == '\n');
                assert(c.len() == lc.len() - 1);
            }
            assert(p < line_start(t, l + 1));
        }
    };
}

proof fn lemma_lead_spaces(c: Seq<char>, i: int, cap: int)
    requires
        0 <= i,
    ensures
        i <= lead_spaces(c, i, cap),
        lead_spaces(c, i, cap) <= c.len() || lead_spaces(c, i, cap) == i,
        forall|k: int| i <= k < lead_spaces(c, i, cap) ==> #[trigger] c[k] == ' ',
    decreases cap - i,
{
    if 0 <= i < c.len() && i < cap && c[i] == ' ' {
        lemma_lead_spaces(c, i + 1, cap);
    }
}

/// A shiftwidth of spaces.
fn shift_spaces() -> (s: String)
    ensures
        s@ == spaces(SHIFTWIDTH as nat),
{
    let mut s = String::new();
    let mut k: usize = 0;
    while k < SHIFTWIDTH
        invariant
            k <= SHIFTWIDTH,
            s@ == spaces(k as nat),
        decreases SHIFTWIDTH - k,
    {
        s.push(' ');
        k += 1;
        assert(s@ =~= spaces(k as nat));
    }
    s
}

impl EditState {
    /// `>` (`right`) or `<` over lines `l1..=l2` (see [`shift_post`]).
    #[verifier::spinoff_prover]
    #[verifier::rlimit(40)]
    pub fn shift_lines(&mut self, l1: usize, l2: usize, right: bool)
        requires
            l1 <= l2,
            shift_ok(*old(self)),
        ensures
            shift_post(*old(self), *final(self), l1 as int, l2 as int, right),
    {
        let ghost t = self.buffer@.text;
        proof {
            lemma_text_lines_bound(t);
            lemma_lf_only_lines(t);
        }
        let last = text_lines(&self.buffer.rope) - 1;
        let a = if l1 < last { l1 } else { last };
        let b = if l2 < last { l2 } else { last };
        self.goal = None;
        self.buffer.begin_change(self.cursor);
        let ghost m1 = self.buffer@;
        let sp = shift_spaces();
        let mut l = a;
        while l <= b
            invariant
                a <= l <= b + 1,
                b < line_count(t),
                b < usize::MAX,
                m1.text == t,
                lf_only(self.buffer@.text),
                line_count(self.buffer@.text) == line_count(t),
                self.buffer@ == shifted(m1, a as nat, (l - a) as nat, right),
                self.buffer@.text.len() <= t.len() + SHIFTWIDTH * (l - a),
                t.len() + SHIFTWIDTH * line_count(t) <= usize::MAX,
                self.buffer@.revision <= m1.revision + (l - a),
                m1.revision + line_count(t) + 2 < u64::MAX,
                sp@ == spaces(SHIFTWIDTH as nat),
                self.mode == old(self).mode,
                self.yank_reg == old(self).yank_reg,
                self.cut_reg == old(self).cut_reg,
                self.last_find == old(self).last_find,
                self.change_started == old(self).change_started,
                self.goal is None,
            decreases b + 1 - l,
        {
            let ghost tc = self.buffer@.text;
            proof {
                lemma_content_at(tc, l as nat);
                assert(SHIFTWIDTH * (l - a) + SHIFTWIDTH <= SHIFTWIDTH * line_count(t)) by (nonlinear_arith)
                    requires
                        l - a + 1 <= line_count(t),
                        l >= a,
                ;
            }
            let content = line_content(&self.buffer.rope, l);
            let cv = chars_of(content.as_str());
            let ls = rope_line_to_char(&self.buffer.rope, l);
            if right {
                if cv.len() > 0 {
                    proof {
                        assert(plain_text(spaces(SHIFTWIDTH as nat)));
                        lemma_insert_plain(tc, ls as int, spaces(SHIFTWIDTH as nat));
                        lemma_lf_only_lines(tc.take(ls as int) + spaces(SHIFTWIDTH as nat) + tc.skip(ls as int));
                        lemma_lf_only_lines(tc);
                    }
                    self.buffer.insert(ls, sp.as_str());
                }
            } else {
                let k: usize = if cv.len() > 0 && cv[0] == '\t' {
                    1
                } else {
                    let mut i: usize = 0;
                    while i < cv.len() && i < SHIFTWIDTH && cv[i] == ' '
                        invariant
                            i <= cv@.len(),
                            i <= SHIFTWIDTH,
                            lead_spaces(cv@, i as int, SHIFTWIDTH as int) == lead_spaces(cv@, 0, SHIFTWIDTH as int),
                        decreases cv@.len() - i,
                    {
                        i += 1;
                    }
                    i
                };
                proof {
                    lemma_lead_spaces(cv@, 0, SHIFTWIDTH as int);
                    assert(k == dedent_len(cv@));
                    assert forall|j: int| ls <= j < ls + k implies #[trigger] tc[j] != '\n' by {
                        assert(tc[j] == cv@[j - ls]);
                    };
                    lemma_remove_plain(tc, ls as int, ls + k);
                    lemma_lf_only_lines(tc.take(ls as int) + tc.skip(ls + k));
                    lemma_lf_only_lines(tc);
                }
                self.buffer.remove(ls, ls + k);
            }
            proof {
                assert(shifted(m1, a as nat, (l + 1 - a) as nat, right) == shift_line(
                    shifted(m1, a as nat, (l - a) as nat, right),
                    l as nat,
                    right,
                ));
            }
            l = l + 1;
        }
        assert(l == b + 1);
        assert(self.buffer@ == shifted(m1, a as nat, (b - a + 1) as nat, right));
        assert(m1 == model_begin(old(self).buffer@, old(self).cursor));
        let committed = self.buffer.end_change();
        if committed {
            self.change_started = true;
        }
        proof {
            lemma_lf_only_lines(self.buffer@.text);
        }
        let col = first_non_blank(&self.buffer.rope, a);
        self.cursor = Cursor { line: a, col };
        proof {
            let last = spec_text_lines(t) - 1;
            assert(a == (if l1 < last { l1 as int } else { last }));
            assert(b == (if l2 < last { l2 as int } else { last }));
            let (m3, c3) = model_end(shifted(m1, a as nat, (b - a + 1) as nat, right));
            assert(self.buffer@ == m3);
            assert(committed == c3);
            assert(self.cursor.col == spec_first_non_blank(spec_line_content(m3.text, a as nat)));
        }
    }
}

/// The lines a shift over a motion covers: the motion's lines, or the
/// lines from the first to the last char it spans, or the line of the
/// place it stays at.
pub open spec fn span_lines(t: Seq<char>, s: Span) -> Option<(int, int)> {
    match s {
        Span::Lines(l1, l2) => Some((l1 as int, l2 as int)),
        Span::Chars(a, b) => Some((breaks_upto(t, a as int) as int, breaks_upto(t, b - 1) as int)),
        Span::Empty(a) => Some((breaks_upto(t, a as int) as int, breaks_upto(t, a as int) as int)),
        Span::Nothing => None,
    }
}

/// After `>{motion}` / `<{motion}`: nothing when the motion cannot move;
/// else the lines it covers shifted (see [`shift_post`]), a find it made
/// remembered.
pub open spec fn shift_motion_post(s0: EditState, s1: EditState, right: bool, motion: Motion, count: Option<usize>) -> bool {
    let t = s0.buffer@.text;
    match spec_target(t, s0.cursor, Op::Yank, motion, count, s0.goal, s0.last_find, TABSTOP as nat) {
        None => s1 == s0,
        Some((span, lf)) => {
            let s0f = EditState {
                last_find: if lf is Some { lf } else { s0.last_find },
                ..s0
            };
            match span_lines(t, span) {
                None => s1 == s0f,
                Some((l1, l2)) => shift_post(s0f, s1, l1, l2, right),
            }
        },
    }
}

impl EditState {
    /// `>`/`<` over a motion (see [`shift_motion_post`]).
    pub fn shift_motion(&mut self, right: bool, motion: Motion, count: Option<usize>)
        requires
            resolvable(motion, count, old(self).cursor, old(self).buffer@.text, TABSTOP as nat),
            shift_ok(*old(self)),
        ensures
            shift_motion_post(*old(self), *final(self), right, motion, count),
    {
        let ghost t = self.buffer@.text;
        match operator_target(
            &self.buffer.rope,
            self.cursor,
            Op::Yank,
            motion,
            count,
            self.goal,
            self.last_find,
            TABSTOP,
        ) {
            None => {},
            Some((span, lf)) => {
                if lf.is_some() {
                    self.last_find = lf;
                }
                match span {
                    Span::Lines(l1, l2) => self.shift_lines(l1, l2, right),
                    Span::Chars(a, b) => {
                        let l1 = rope_char_to_line(&self.buffer.rope, a);
                        let l2 = rope_char_to_line(&self.buffer.rope, b - 1);
                        proof {
                            crate::editing::rope::lemma_breaks_mono(t, a as int, b - 1);
                        }
                        self.shift_lines(l1, l2, right);
                    },
                    Span::Empty(a) => {
                        let l1 = rope_char_to_line(&self.buffer.rope, a);
                        self.shift_lines(l1, l1, right);
                    },
                    Span::Nothing => {},
                }
            },
        }
    }
}

} // verus!
