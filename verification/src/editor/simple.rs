//! Counted normal-mode commands on the text around the cursor: toggling
//! case (`~`) and joining lines (`J`).

use vstd::prelude::*;

use crate::chars::{spec_toggle_char, toggle_char};
use crate::config::TABSTOP;
use crate::editing::buffer::{model_begin, model_end, model_insert, model_remove, BufModel, Cursor};
use crate::editing::lines::{
    indent_len, line_content, line_indent, line_len, spec_line_content, spec_text_lines, text_lines,
};
use crate::editing::motion::{cursor_ok, lemma_content_fits, text_fits};
use crate::editing::rope::{
    is_break_end, lemma_breaks_mono, lemma_breaks_same_prefix, lemma_lf_only_lines,
    lemma_line_ends_lf, lemma_line_start_breaks, lemma_line_start_len, lemma_newlines_add,
    lemma_newlines_none, lf_breaks, lf_only, line_chars, line_count, line_start, newlines, odd_break,
    rope_char, rope_len_chars, rope_line_to_char, rope_text,
};
use ropey::Rope;
use crate::editing::text::{first_at_col, gr_index_at_col, line_graphemes, spec_line_graphemes, Gr};
use crate::editor::operator::{
    change_cursor, change_model, chars_between, counters_fit, keeps_rest, land, lemma_cursor_abs,
    lemma_fits_len, lemma_indent_len, lines_post, no_effect, operator_post, spec_land, EditState,
    OpEffect,
};
use crate::editing::commands::{Op, Register, SimpleCmd};
use crate::editing::motion::Motion;
use crate::editor::edits::{delete_clusters_post, reg_put_ok, reg_put_post, spec_clamp, undo_times};
use crate::editor::Mode;

verus! {

/// The chars `~` toggles: `count` clusters from the one under the cursor,
/// as many as the line holds; none off the line's clusters.
pub open spec fn toggle_span(t: Seq<char>, c: Cursor, count: nat) -> Option<(int, int)> {
    let grs = spec_line_graphemes(spec_line_content(t, c.line as nat), TABSTOP as nat);
    let base = line_start(t, c.line as nat);
    match first_at_col(grs, c.col as int, 0) {
        None => None,
        Some(idx) => {
            let li = if idx + count - 1 < grs.len() - 1 {
                idx + count - 1
            } else {
                grs.len() - 1
            };
            Some((base + grs[idx].char_off, base + grs[li].char_off + grs[li].chars))
        },
    }
}

/// Each char with its case toggled.
pub open spec fn toggled(s: Seq<char>) -> Seq<char> {
    s.map_values(|c: char| spec_toggle_char(c))
}

/// After `~`: the span toggled in a change of its own (the char count never
/// changes), the cursor landing just past it (at most at the line's end).
pub open spec fn toggle_case_post(s0: EditState, s1: EditState, count: nat) -> bool {
    let t = s0.buffer@.text;
    let c = s0.cursor;
    match toggle_span(t, c, count) {
        None => s1 == s0,
        Some((a, b)) => {
            let m1 = model_insert(model_remove(model_begin(s0.buffer@, c), a, b), a, toggled(t.subrange(a, b)));
            let t1 = m1.text;
            let lend = line_start(t, c.line as nat) + spec_line_content(t1, c.line as nat).len();
            let (m, committed) = model_end(m1);
            &&& s1.buffer@ == m
            &&& s1.cursor == spec_land(t1, if b < lend { b } else { lend }, TABSTOP as nat)
            &&& s1.goal is None
            &&& s1.change_started == (s0.change_started || committed)
            &&& s1.mode == s0.mode
            &&& s1.yank_reg == s0.yank_reg
            &&& s1.cut_reg == s0.cut_reg
            &&& s1.last_find == s0.last_find
        },
    }
}

/// Replacing chars after the start of a line, one for one, keeps that line.
proof fn lemma_line_survives(t: Seq<char>, u: Seq<char>, l: nat)
    requires
        l < line_count(t),
        lf_breaks(t),
        u.len() == t.len(),
        forall|i: int| 0 <= i < line_start(t, l) ==> u[i] == t[i],
    ensures
        l < line_count(u),
{
    if l > 0 {
        lemma_line_start_breaks(t, l);
        let base = line_start(t, l);
        assert(t[base - 1] == '\n');
        lemma_breaks_same_prefix(t, u, base);
        lemma_breaks_mono(u, base, u.len() as int);
    }
}

/// Where `~` acts (see [`toggle_span`]).
#[verifier::spinoff_prover]
fn toggle_span_of(rope: &Rope, c: Cursor, count: usize) -> (r: Option<(usize, usize)>)
    requires
        count >= 1,
        cursor_ok(rope_text(*rope), c),
        text_fits(rope_text(*rope), TABSTOP as nat),
    ensures
        r is None <==> toggle_span(rope_text(*rope), c, count as nat) is None,
        r matches Some((a, b)) ==> toggle_span(rope_text(*rope), c, count as nat) == Some(
            (a as int, b as int),
        ),
        r matches Some((a, b)) ==> a < b <= line_start(rope_text(*rope), c.line as nat)
            + spec_line_content(rope_text(*rope), c.line as nat).len() && line_start(
            rope_text(*rope),
            c.line as nat,
        ) <= a,
{
    let ghost t = rope_text(*rope);
    let line = c.line;
    proof {
        lemma_cursor_abs(t, c);
        lemma_fits_len(t, TABSTOP as nat);
        lemma_content_fits(t, line as nat, TABSTOP as nat);
    }
    let content = line_content(rope, line);
    let grs = line_graphemes(content.as_str(), TABSTOP);
    let idx = match gr_index_at_col(grs.as_slice(), c.col) {
        None => {
            return None;
        },
        Some(i) => i,
    };
    let base = rope_line_to_char(rope, line);
    let li = if count - 1 < grs.len() - 1 - idx {
        idx + count - 1
    } else {
        grs.len() - 1
    };
    assert(grs@[idx as int].char_off + grs@[idx as int].chars <= content@.len());
    assert(grs@[li as int].char_off + grs@[li as int].chars <= content@.len());
    proof {
        crate::editing::text::lemma_grs_ordered(grs@, content@.len() as int, idx as int, li as int);
    }
    Some((base + grs[idx].char_off, base + grs[li].char_off + grs[li].chars))
}

/// The cluster found for a column holds it.
proof fn lemma_first_at_col_hit(grs: Seq<Gr>, col: int, i: int)
    requires
        0 <= i,
    ensures
        first_at_col(grs, col, i) matches Some(j) ==> col < grs[j].char_off + grs[j].chars,
    decreases grs.len() - i,
{
    if i < grs.len() && !(col < grs[i].char_off + grs[i].chars) {
        lemma_first_at_col_hit(grs, col, i + 1);
    }
}

/// Where `s` acts (see [`subst_span`]).
#[verifier::spinoff_prover]
#[verifier::rlimit(60)]
fn subst_span_of(rope: &Rope, c: Cursor, count: usize) -> (r: (usize, usize))
    requires
        count >= 1,
        cursor_ok(rope_text(*rope), c),
        text_fits(rope_text(*rope), TABSTOP as nat),
    ensures
        subst_span(rope_text(*rope), c, count as nat) == (r.0 as int, r.1 as int),
        r.0 <= r.1 <= rope_text(*rope).len(),
{
    let ghost t = rope_text(*rope);
    let line = c.line;
    proof {
        lemma_cursor_abs(t, c);
        lemma_fits_len(t, TABSTOP as nat);
        lemma_content_fits(t, line as nat, TABSTOP as nat);
    }
    let len = line_len(rope, line);
    let content = line_content(rope, line);
    let grs = line_graphemes(content.as_str(), TABSTOP);
    let base = rope_line_to_char(rope, line);
    let start = base + c.col;
    let end = match gr_index_at_col(grs.as_slice(), c.col) {
        Some(i) => {
            let li = if count - 1 < grs.len() - 1 - i {
                i + count - 1
            } else {
                grs.len() - 1
            };
            assert(grs@[li as int].char_off + grs@[li as int].chars <= content@.len());
            proof {
                crate::editing::text::lemma_grs_ordered(grs@, content@.len() as int, i as int, li as int);
                lemma_first_at_col_hit(grs@, c.col as int, 0);
                if li > i {
                    crate::editing::text::lemma_grs_ordered(
                        grs@,
                        content@.len() as int,
                        i + 1,
                        li as int,
                    );
                }
            }
            base + grs[li].char_off + grs[li].chars
        },
        None => base + len,
    };
    (start, end)
}

/// The chars `a..b` with their case toggled.
pub(crate) fn toggled_between(rope: &Rope, a: usize, b: usize) -> (s: String)
    requires
        a <= b <= rope_text(*rope).len(),
    ensures
        s@ == toggled(rope_text(*rope).subrange(a as int, b as int)),
{
    let olds = chars_between(rope, a, b);
    let mut flipped = String::new();
    let mut i: usize = 0;
    while i < olds.len()
        invariant
            i <= olds@.len(),
            flipped@ == toggled(olds@.take(i as int)),
        decreases olds@.len() - i,
    {
        flipped.push(toggle_char(olds[i]));
        i += 1;
        assert(flipped@ =~= toggled(olds@.take(i as int)));
    }
    assert(olds@.take(olds@.len() as int) =~= olds@);
    flipped
}

/// `J` once at `line`: the line break and the next line's leading blanks
/// go; one space separates the two parts unless the line was empty, the
/// next one blank, or the joined line already ends in a blank.
pub open spec fn join_step(m: BufModel, line: nat) -> BufModel {
    let t = m.text;
    let cur = spec_line_content(t, line);
    let next = spec_line_content(t, line + 1);
    let lead = indent_len(next);
    let nl = line_start(t, line) + cur.len();
    let m1 = model_remove(m, nl, nl + 1 + lead);
    let j = spec_line_content(m1.text, line);
    if cur.len() > 0 && lead < next.len() && !(j.len() > 0 && (j.last() == ' ' || j.last() == '\t')) {
        model_insert(m1, nl, seq![' '])
    } else {
        m1
    }
}

/// Up to `k` joins at `line`, stopping once it is the last line; with the
/// column the last join left the cursor at (the joined line's old length).
pub open spec fn joins(m: BufModel, line: nat, k: nat) -> (BufModel, Option<usize>)
    decreases k,
{
    if k == 0 || line + 1 >= spec_text_lines(m.text) {
        (m, None)
    } else {
        let rest = joins(join_step(m, line), line, (k - 1) as nat);
        (
            rest.0,
            if rest.1 is Some {
                rest.1
            } else {
                Some(spec_line_content(m.text, line).len() as usize)
            },
        )
    }
}

/// After `J` with a count: `count - 1` joins (at least one) in one change,
/// the cursor where the last join put it, kept on the text.
pub open spec fn join_post(s0: EditState, s1: EditState, count: nat) -> bool {
    let n: nat = if count < 2 {
        1
    } else {
        (count - 1) as nat
    };
    let l = s0.cursor.line;
    let (mj, col) = joins(model_begin(s0.buffer@, s0.cursor), l as nat, n);
    let c = match col {
        Some(x) => Cursor { line: l, col: x },
        None => s0.cursor,
    };
    let (m, committed) = model_end(mj);
    &&& s1.buffer@ == m
    &&& s1.cursor == spec_clamp(mj.text, c, s0.mode)
    &&& s1.goal is None
    &&& s1.change_started == (s0.change_started || committed)
    &&& s1.mode == s0.mode
    &&& s1.yank_reg == s0.yank_reg
    &&& s1.cut_reg == s0.cut_reg
    &&& s1.last_find == s0.last_find
}

proof fn lemma_indent_chars(s: Seq<char>, i: int)
    requires
        0 <= i < indent_len(s),
    ensures
        s[i] == ' ' || s[i] == '\t',
    decreases s.len(),
{
    lemma_indent_len(s);
    if i > 0 {
        lemma_indent_chars(s.skip(1), i - 1);
        assert(s.skip(1)[i - 1] == s[i]);
    }
}

/// In an LF-only text, the line break after a line that has a successor is
/// a `\n` right after its content, and the next line's leading blanks
/// follow it.
proof fn lemma_join_bounds(t: Seq<char>, l: nat)
    requires
        lf_only(t),
        l + 1 < line_count(t),
    ensures
        ({
            let nl = line_start(t, l) + spec_line_content(t, l).len();
            let next = spec_line_content(t, l + 1);
            let lead = indent_len(next);
            &&& 0 <= nl
            &&& lead <= next.len()
            &&& nl + 1 + lead <= t.len()
            &&& t[nl] == '\n'
            &&& nl + 1 == line_start(t, l + 1)
            &&& forall|i: int| nl < i < nl + 1 + lead ==> t[i] == ' ' || t[i] == '\t'
        }),
{
    assert forall|i: int| #[trigger] is_break_end(t, i) implies t[i - 1] == '\n' by {
        assert(!odd_break(t[i - 1]));
    }
    lemma_line_ends_lf(t, l);
    lemma_line_start_len(t, l);
    lemma_line_start_len(t, l + 1);
    let next = spec_line_content(t, l + 1);
    lemma_indent_len(next);
    let ls1 = line_start(t, l + 1);
    let lead = indent_len(next);
    assert forall|i: int| ls1 <= i < ls1 + lead implies t[i] == ' ' || t[i] == '\t' by {
        lemma_indent_chars(next, i - ls1);
        assert(next[i - ls1] == line_chars(t, l + 1)[i - ls1]);
    }
}

/// Dropping a `\n` and blanks after it keeps an LF-only text LF-only, one
/// line shorter.
proof fn lemma_drop_break(t: Seq<char>, a: int, b: int)
    requires
        lf_only(t),
        0 <= a < b <= t.len(),
        t[a] == '\n',
        forall|i: int| a < i < b ==> t[i] == ' ' || t[i] == '\t',
    ensures
        lf_only(t.take(a) + t.skip(b)),
        line_count(t.take(a) + t.skip(b)) + 1 == line_count(t),
{
    let u = t.take(a) + t.skip(b);
    assert forall|i: int| 0 <= i < u.len() implies !odd_break(#[trigger] u[i]) by {
        if i < a {
            assert(u[i] == t[i]);
        } else {
            assert(u[i] == t[i + b - a]);
        }
    }
    let mid = t.subrange(a, b);
    assert(t =~= t.take(a) + mid + t.skip(b));
    assert(mid =~= seq![t[a]] + t.subrange(a + 1, b));
    lemma_newlines_none(t.subrange(a + 1, b));
    lemma_newlines_add(seq![t[a]], t.subrange(a + 1, b));
    assert(newlines(seq![t[a]]) == 1) by {
        reveal_with_fuel(newlines, 2);
        assert(seq![t[a]].drop_last() =~= Seq::<char>::empty());
    }
    lemma_newlines_add(t.take(a) + mid, t.skip(b));
    lemma_newlines_add(t.take(a), mid);
    lemma_newlines_add(t.take(a), t.skip(b));
    lemma_lf_only_lines(t);
    lemma_lf_only_lines(u);
}

/// Inserting a space keeps an LF-only text LF-only, with as many lines.
proof fn lemma_insert_space(t: Seq<char>, a: int)
    requires
        lf_only(t),
        0 <= a <= t.len(),
    ensures
        lf_only(t.take(a) + seq![' '] + t.skip(a)),
        line_count(t.take(a) + seq![' '] + t.skip(a)) == line_count(t),
{
    let u = t.take(a) + seq![' '] + t.skip(a);
    assert forall|i: int| 0 <= i < u.len() implies !odd_break(#[trigger] u[i]) by {
        if i < a {
            assert(u[i] == t[i]);
        } else if i > a {
            assert(u[i] == t[i - 1]);
        }
    }
    assert(t =~= t.take(a) + t.skip(a));
    lemma_newlines_add(t.take(a), t.skip(a));
    lemma_newlines_add(t.take(a) + seq![' '], t.skip(a));
    lemma_newlines_add(t.take(a), seq![' ']);
    assert(newlines(seq![' ']) == 0) by {
        reveal_with_fuel(newlines, 2);
        assert(seq![' '].drop_last() =~= Seq::<char>::empty());
    }
    lemma_lf_only_lines(t);
    lemma_lf_only_lines(u);
}

/// Whether a text is LF-only.
pub fn is_lf_only(rope: &Rope) -> (b: bool)
    ensures
        b == lf_only(rope_text(*rope)),
{
    let n = rope_len_chars(rope);
    let mut i: usize = 0;
    while i < n
        invariant
            n == rope_text(*rope).len(),
            i <= n,
            forall|j: int| 0 <= j < i ==> !odd_break(#[trigger] rope_text(*rope)[j]),
        decreases n - i,
    {
        let c = rope_char(rope, i);
        if c == '\r' || c == '\u{b}' || c == '\u{c}' || c == '\u{85}' || c == '\u{2028}' || c
            == '\u{2029}' {
            return false;
        }
        i += 1;
    }
    true
}

/// The chars `s` takes: from the cursor through `count` clusters (as many
/// as the line holds), or to the line's end past its clusters.
pub open spec fn subst_span(t: Seq<char>, c: Cursor, count: nat) -> (int, int) {
    let content = spec_line_content(t, c.line as nat);
    let grs = spec_line_graphemes(content, TABSTOP as nat);
    let base = line_start(t, c.line as nat);
    let end = match first_at_col(grs, c.col as int, 0) {
        Some(i) => {
            let li = if i + count - 1 < grs.len() - 1 {
                i + count - 1
            } else {
                grs.len() - 1
            };
            base + grs[li].char_off + grs[li].chars
        },
        None => base + content.len(),
    };
    (base + c.col, end)
}

/// After `s`: the chars taken go to the cut register (when there are any)
/// and a change of them begins, in insert mode.
pub open spec fn subst_post(s0: EditState, s1: EditState, count: nat) -> bool {
    let t = s0.buffer@.text;
    let (a, b) = subst_span(t, s0.cursor, count);
    &&& (a < b ==> (s1.cut_reg matches Some(Register::Char(x)) && x@ == t.subrange(a, b)))
    &&& (a >= b ==> s1.cut_reg == s0.cut_reg)
    &&& s1.buffer@ == change_model(s0, a, b)
    &&& s1.cursor == change_cursor(s1.buffer@.text, a)
    &&& s1.goal is None
    &&& s1.mode == Mode::Insert
    &&& s1.yank_reg == s0.yank_reg
    &&& s1.last_find == s0.last_find
    &&& s1.change_started == s0.change_started
}

/// What a counted command did.
pub enum SimpleOutcome {
    /// Carried out on the state; what the editor does after an operator
    /// (mirroring a yank to the clipboard, flashing it) comes along.
    Done(OpEffect),
    /// Undo or redo ran out of history before the count did.
    RanOut,
    /// A command the editor carries out itself (repeat, jumps, search,
    /// number edits), with the count typed.
    Editor(SimpleCmd, Option<usize>),
}

/// No operator side effects.
pub open spec fn done_plain(r: SimpleOutcome) -> bool {
    r matches SimpleOutcome::Done(e) && no_effect(e)
}

/// What [`EditState::simple`] asks of the state for each command.
pub open spec fn simple_ok(s: EditState, cmd: SimpleCmd, n: nat) -> bool {
    let t = s.buffer@.text;
    &&& cursor_ok(t, s.cursor)
    &&& text_fits(t, TABSTOP as nat)
    &&& counters_fit(s)
    &&& n + t.len() + s.cursor.line <= usize::MAX
    &&& (cmd == SimpleCmd::ToggleCase ==> lf_breaks(t))
    &&& (cmd == SimpleCmd::Join ==> lf_only(t) && s.buffer@.revision + 2 * line_count(t) < u64::MAX)
    &&& (cmd == SimpleCmd::PasteAfter || cmd == SimpleCmd::PasteBefore ==> (s.yank_reg matches Some(
        r,
    ) ==> reg_put_ok(s, r, n)))
    &&& (cmd == SimpleCmd::Undo || cmd == SimpleCmd::Redo ==> s.buffer@.revision + n < u64::MAX)
}

/// What a counted command does (`n`: the count, one when none was typed).
pub open spec fn simple_post(s0: EditState, s1: EditState, r: SimpleOutcome, cmd: SimpleCmd, count: Option<usize>) -> bool {
    let n: nat = match count {
        Some(c) => if c < 1 {
            1nat
        } else {
            c as nat
        },
        None => 1nat,
    };
    let line = s0.cursor.line;
    match cmd {
        SimpleCmd::DeleteRight => delete_clusters_post(s0, s1, n, true) && done_plain(r),
        SimpleCmd::DeleteLeft => delete_clusters_post(s0, s1, n, false) && done_plain(r),
        SimpleCmd::ToggleCase => toggle_case_post(s0, s1, n) && done_plain(r),
        SimpleCmd::Join => join_post(s0, s1, n) && done_plain(r),
        SimpleCmd::PasteAfter | SimpleCmd::PasteBefore => done_plain(r) && match s0.yank_reg {
            None => s1 == s0,
            Some(reg) => reg_put_post(s0, s1, reg, cmd == SimpleCmd::PasteAfter, n),
        },
        SimpleCmd::Undo | SimpleCmd::Redo => {
            let (m, c, out) = undo_times(s0.buffer@, s0.cursor, n, cmd == SimpleCmd::Redo);
            &&& s1.buffer@ == m
            &&& s1.cursor == c
            &&& (if out {
                r is RanOut
            } else {
                done_plain(r)
            })
            &&& s1.goal is None
            &&& s1.mode == s0.mode
            &&& s1.yank_reg == s0.yank_reg
            &&& s1.cut_reg == s0.cut_reg
            &&& s1.last_find == s0.last_find
            &&& s1.change_started == s0.change_started
        },
        SimpleCmd::DeleteToEol => (r matches SimpleOutcome::Done(e) && operator_post(
            s0,
            s1,
            e,
            Op::Delete,
            Motion::LineEnd,
            Some(n as usize),
        )),
        SimpleCmd::ChangeToEol => (r matches SimpleOutcome::Done(e) && operator_post(
            s0,
            s1,
            e,
            Op::Change,
            Motion::LineEnd,
            Some(n as usize),
        )),
        SimpleCmd::YankToEol => (r matches SimpleOutcome::Done(e) && operator_post(
            s0,
            s1,
            e,
            Op::Yank,
            Motion::LineEnd,
            Some(n as usize),
        )),
        SimpleCmd::SubstChar => subst_post(s0, s1, n) && done_plain(r),
        SimpleCmd::SubstLine => (r matches SimpleOutcome::Done(e) && lines_post(
            s0,
            s1,
            e,
            Op::Change,
            line as int,
            line + n - 1,
        ) && keeps_rest(s0, s1)),
        _ => s1 == s0 && r == SimpleOutcome::Editor(cmd, count),
    }
}

impl EditState {
    /// `~` with a count.
    #[verifier::spinoff_prover]
    #[verifier::rlimit(40)]
    pub fn toggle_case(&mut self, count: usize)
        requires
            count >= 1,
            counters_fit(*old(self)),
            cursor_ok(old(self).buffer@.text, old(self).cursor),
            text_fits(old(self).buffer@.text, TABSTOP as nat),
            lf_breaks(old(self).buffer@.text),
        ensures
            toggle_case_post(*old(self), *final(self), count as nat),
    {
        let ghost t = self.buffer@.text;
        let line = self.cursor.line;
        proof {
            lemma_cursor_abs(t, self.cursor);
            lemma_fits_len(t, TABSTOP as nat);
        }
        let (start, end) = match toggle_span_of(&self.buffer.rope, self.cursor, count) {
            None => {
                return;
            },
            Some(r) => r,
        };
        let base = rope_line_to_char(&self.buffer.rope, line);
        let flipped = toggled_between(&self.buffer.rope, start, end);
        let ghost m0 = self.buffer@;
        self.buffer.begin_change(self.cursor);
        self.buffer.remove(start, end);
        self.buffer.insert(start, flipped.as_str());
        let ghost t1 = self.buffer@.text;
        proof {
            assert(t1.len() == t.len());
            assert forall|i: int| 0 <= i < line_start(t, line as nat) implies t1[i] == t[i] by {}
            lemma_line_survives(t, t1, line as nat);
            lemma_cursor_abs(t1, Cursor { line, col: 0 });
        }
        let lend = base + line_len(&self.buffer.rope, line);
        self.cursor = land(
            &self.buffer.rope,
            if end < lend {
                end
            } else {
                lend
            },
            TABSTOP,
        );
        let committed = self.buffer.end_change();
        if committed {
            self.change_started = true;
        }
        self.goal = None;
    }

    /// `J` with a count.
    #[verifier::spinoff_prover]
    #[verifier::rlimit(60)]
    pub fn join_lines(&mut self, count: usize)
        requires
            cursor_ok(old(self).buffer@.text, old(self).cursor),
            text_fits(old(self).buffer@.text, TABSTOP as nat),
            lf_only(old(self).buffer@.text),
            old(self).buffer@.depth < u32::MAX,
            old(self).buffer@.revision + 2 * line_count(old(self).buffer@.text) < u64::MAX,
        ensures
            join_post(*old(self), *final(self), count as nat),
    {
        let ghost t0 = self.buffer@.text;
        let n: usize = if count < 2 {
            1
        } else {
            count - 1
        };
        let line = self.cursor.line;
        let ghost c0 = self.cursor;
        proof {
            crate::editing::rope::lemma_breaks_bound(t0, t0.len() as int);
            lemma_fits_len(t0, TABSTOP as nat);
        }
        self.buffer.begin_change(self.cursor);
        let ghost mb = self.buffer@;
        let ghost mut last: Option<usize> = None;
        let mut k: usize = 0;
        while k < n
            invariant
                k <= n,
                lf_only(self.buffer@.text),
                self.buffer@.text.len() <= t0.len(),
                text_fits(t0, TABSTOP as nat),
                line == c0.line,
                c0.line < line_count(t0),
                line < usize::MAX,
                self.buffer@.read_only == mb.read_only,
                mb.read_only ==> self.buffer@ == mb,
                !mb.read_only ==> k + line_count(self.buffer@.text) == line_count(t0),
                self.buffer@.revision <= mb.revision + 2 * k,
                mb.revision + 2 * line_count(t0) < u64::MAX,
                self.cursor == (match last {
                    Some(x) => Cursor { line, col: x },
                    None => c0,
                }),
                joins(mb, line as nat, n as nat).0 == joins(self.buffer@, line as nat, (n - k) as nat).0,
                joins(mb, line as nat, n as nat).1 == (match joins(
                    self.buffer@,
                    line as nat,
                    (n - k) as nat,
                ).1 {
                    Some(x) => Some(x),
                    None => last,
                }),
                self.mode == old(self).mode,
                self.goal == old(self).goal,
                self.yank_reg == old(self).yank_reg,
                self.cut_reg == old(self).cut_reg,
                self.last_find == old(self).last_find,
                self.change_started == old(self).change_started,
            ensures
                joins(mb, line as nat, n as nat) == (self.buffer@, last),
            decreases n - k,
        {
            let ghost t = self.buffer@.text;
            let ghost m = self.buffer@;
            let tl = text_lines(&self.buffer.rope);
            if line + 1 >= tl {
                break;
            }
            proof {
                crate::editing::lines::lemma_text_lines_bound(t);
                lemma_join_bounds(t, line as nat);
                lemma_fits_len(t0, TABSTOP as nat);
            }
            let cur_len = line_len(&self.buffer.rope, line);
            let nl = rope_line_to_char(&self.buffer.rope, line) + cur_len;
            let next_len = line_len(&self.buffer.rope, line + 1);
            let indent = line_indent(&self.buffer.rope, line + 1);
            let lead = crate::chars::chars_of(indent.as_str()).len();
            self.buffer.remove(nl, nl + 1 + lead);
            let ghost m1 = self.buffer@;
            proof {
                if !mb.read_only {
                    lemma_drop_break(t, nl as int, nl + 1 + lead);
                }
            }
            let joined = line_content(&self.buffer.rope, line);
            let jv = crate::chars::chars_of(joined.as_str());
            let ends_blank = jv.len() > 0 && (jv[jv.len() - 1] == ' ' || jv[jv.len() - 1] == '\t');
            if cur_len > 0 && lead < next_len && !ends_blank {
                let mut space = String::new();
                space.push(' ');
                assert(space@ =~= seq![' ']);
                self.buffer.insert(nl, space.as_str());
                proof {
                    if !mb.read_only {
                        lemma_insert_space(m1.text, nl as int);
                    }
                }
            }
            assert(self.buffer@ == join_step(m, line as nat));
            self.cursor = Cursor::new(line, cur_len);
            proof {
                last = Some(cur_len);
            }
            k += 1;
        }
        proof {
            lemma_fits_len(t0, TABSTOP as nat);
            assert(self.buffer@.text.len() * (3 + TABSTOP) <= t0.len() * (3 + TABSTOP)) by (nonlinear_arith)
                requires
                    self.buffer@.text.len() <= t0.len(),
            ;
        }
        self.clamp_cursor();
        let committed = self.buffer.end_change();
        if committed {
            self.change_started = true;
        }
        self.goal = None;
    }

    /// `s` with a count.
    pub fn subst_chars(&mut self, count: usize)
        requires
            count >= 1,
            counters_fit(*old(self)),
            cursor_ok(old(self).buffer@.text, old(self).cursor),
            text_fits(old(self).buffer@.text, TABSTOP as nat),
        ensures
            subst_post(*old(self), *final(self), count as nat),
    {
        let (start, end) = subst_span_of(&self.buffer.rope, self.cursor, count);
        let taken = chars_between(&self.buffer.rope, start, end);
        if start < end {
            self.cut_reg = Some(Register::Char(crate::chars::string_of(taken.as_slice())));
        }
        self.change_range(start, end);
    }

    /// A counted normal-mode command (`x`, `X`, `~`, `J`, `p`, `P`, `u`,
    /// `Ctrl+r`, `D`, `C`, `Y`, `s`, `S`); the editor's own commands come
    /// back untouched.
    #[verifier::spinoff_prover]
    pub fn simple(&mut self, cmd: SimpleCmd, count: Option<usize>) -> (r: SimpleOutcome)
        requires
            simple_ok(
                *old(self),
                cmd,
                match count {
                    Some(c) => if c < 1 {
                        1nat
                    } else {
                        c as nat
                    },
                    None => 1nat,
                },
            ),
        ensures
            simple_post(*old(self), *final(self), r, cmd, count),
    {
        let n: usize = match count {
            Some(c) => if c < 1 {
                1
            } else {
                c
            },
            None => 1,
        };
        let none = OpEffect { clipboard: None, flash: None };
        match cmd {
            SimpleCmd::DeleteRight => {
                self.delete_clusters(n, true);
                SimpleOutcome::Done(none)
            },
            SimpleCmd::DeleteLeft => {
                self.delete_clusters(n, false);
                SimpleOutcome::Done(none)
            },
            SimpleCmd::ToggleCase => {
                self.toggle_case(n);
                SimpleOutcome::Done(none)
            },
            SimpleCmd::Join => {
                self.join_lines(n);
                SimpleOutcome::Done(none)
            },
            SimpleCmd::PasteAfter => {
                self.paste(true, n);
                SimpleOutcome::Done(none)
            },
            SimpleCmd::PasteBefore => {
                self.paste(false, n);
                SimpleOutcome::Done(none)
            },
            SimpleCmd::Undo => {
                if self.undo_redo(n, false) {
                    SimpleOutcome::RanOut
                } else {
                    SimpleOutcome::Done(none)
                }
            },
            SimpleCmd::Redo => {
                if self.undo_redo(n, true) {
                    SimpleOutcome::RanOut
                } else {
                    SimpleOutcome::Done(none)
                }
            },
            SimpleCmd::DeleteToEol => SimpleOutcome::Done(
                self.apply_operator(Op::Delete, Motion::LineEnd, Some(n)),
            ),
            SimpleCmd::ChangeToEol => SimpleOutcome::Done(
                self.apply_operator(Op::Change, Motion::LineEnd, Some(n)),
            ),
            SimpleCmd::YankToEol => SimpleOutcome::Done(
                self.apply_operator(Op::Yank, Motion::LineEnd, Some(n)),
            ),
            SimpleCmd::SubstChar => {
                self.subst_chars(n);
                SimpleOutcome::Done(none)
            },
            SimpleCmd::SubstLine => {
                let l = self.cursor.line;
                SimpleOutcome::Done(self.linewise_op(Op::Change, l, l + n - 1))
            },
            _ => SimpleOutcome::Editor(cmd, count),
        }
    }
}

} // verus!
