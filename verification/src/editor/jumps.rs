//! Marks and the jumplist: per-buffer positions remembered by letter, and
//! the history of jump sources walked with `Ctrl+o` / `Ctrl+i`.

use vstd::prelude::*;

use crate::chars::{is_ascii_alnum, spec_ascii_alnum};
use crate::editing::buffer::Cursor;
use crate::config::TABSTOP;
use crate::editing::lines::{first_non_blank, lemma_text_lines_bound, spec_first_non_blank, spec_line_content, spec_text_lines, text_lines};
use crate::editing::motion::text_fits;
use crate::editor::edits::spec_clamp;
use crate::editor::operator::EditState;
use crate::editor::BufId;

verus! {

/// How many jump sources a recorded jump keeps.
pub const JUMP_CAP: usize = 100;

/// The jumplist: positions jumped from, oldest first, and where a walk
/// through them stands (the length when not walking).
pub struct JumpList {
    pub entries: Vec<(BufId, Cursor)>,
    pub index: usize,
}

/// The entries after recording a jump from `e`: the history past the walk
/// dropped, `e` added unless it is already the newest, the oldest dropped
/// beyond the cap.
pub open spec fn recorded(l: Seq<(BufId, Cursor)>, index: int, e: (BufId, Cursor)) -> Seq<(BufId, Cursor)> {
    let t = l.take(index);
    let p = if t.len() > 0 && t.last() == e {
        t
    } else {
        t.push(e)
    };
    if p.len() > JUMP_CAP {
        p.drop_first()
    } else {
        p
    }
}

/// The entries when a walk back starts from `e`: it is added first, so
/// that walking forward again comes back to it, unless it is the newest.
pub open spec fn walked_from(l: Seq<(BufId, Cursor)>, index: int, e: (BufId, Cursor)) -> Seq<(BufId, Cursor)> {
    if index == l.len() && !(l.len() > 0 && l.last() == e) {
        l.push(e)
    } else {
        l
    }
}

impl JumpList {
    /// An empty jumplist.
    pub fn new() -> (j: JumpList)
        ensures
            j.entries@.len() == 0,
            j.index == 0,
    {
        JumpList { entries: Vec::new(), index: 0 }
    }

    /// Records a jump from `e` (see [`recorded`]); the walk ends.
    pub fn record(&mut self, e: (BufId, Cursor))
        requires
            old(self).index <= old(self).entries@.len(),
        ensures
            final(self).entries@ == recorded(old(self).entries@, old(self).index as int, e),
            final(self).index == final(self).entries@.len(),
    {
        self.entries.truncate(self.index);
        let n = self.entries.len();
        if !(n > 0 && self.entries[n - 1].0 == e.0 && self.entries[n - 1].1 == e.1) {
            self.entries.push(e);
        }
        if self.entries.len() > JUMP_CAP {
            self.entries.remove(0);
        }
        self.index = self.entries.len();
    }

    /// `Ctrl+o` from `e`: the previous entry, or none at the oldest (see
    /// [`walked_from`]).
    pub fn back(&mut self, e: (BufId, Cursor)) -> (r: Option<(BufId, Cursor)>)
        requires
            old(self).index <= old(self).entries@.len(),
        ensures
            old(self).index == 0 ==> r is None && *final(self) == *old(self),
            old(self).index > 0 ==> {
                let l = walked_from(old(self).entries@, old(self).index as int, e);
                &&& final(self).entries@ == l
                &&& final(self).index == old(self).index - 1
                &&& r == Some(l[old(self).index - 1])
            },
            final(self).index <= final(self).entries@.len(),
    {
        if self.index == 0 {
            return None;
        }
        let n = self.entries.len();
        if self.index == n && !(n > 0 && self.entries[n - 1].0 == e.0 && self.entries[n - 1].1 == e.1) {
            self.entries.push(e);
        }
        self.index = self.index - 1;
        Some(self.entries[self.index])
    }

    /// `Ctrl+i`: the next entry, or none at the newest.
    pub fn forward(&mut self) -> (r: Option<(BufId, Cursor)>)
        requires
            old(self).index <= old(self).entries@.len(),
        ensures
            old(self).index + 1 >= old(self).entries@.len() ==> r is None && *final(self) == *old(self),
            old(self).index + 1 < old(self).entries@.len() ==> final(self).index == old(self).index + 1
                && final(self).entries == old(self).entries && r == Some(
                old(self).entries@[old(self).index + 1],
            ),
            final(self).index <= final(self).entries@.len(),
    {
        if self.entries.len() == 0 || self.index >= self.entries.len() - 1 {
            return None;
        }
        self.index = self.index + 1;
        Some(self.entries[self.index])
    }

    /// Drops entry `i` (its buffer is gone); the walk keeps its place.
    pub fn drop_entry(&mut self, i: usize)
        requires
            i < old(self).entries@.len(),
            old(self).index <= old(self).entries@.len(),
        ensures
            final(self).entries@ == old(self).entries@.remove(i as int),
            final(self).index == (if old(self).index > i {
                old(self).index - 1
            } else {
                old(self).index as int
            }),
            final(self).index <= final(self).entries@.len() + 1,
    {
        self.entries.remove(i);
        if self.index > i {
            self.index = self.index - 1;
        }
    }
}

/// Walking back from a freshly recorded jump returns to where it came
/// from; walking forward again returns to where the walk began, when that
/// is another position.
pub proof fn lemma_back_and_forth(l: Seq<(BufId, Cursor)>, index: int, from: (BufId, Cursor), here: (
    BufId,
    Cursor,
))
    requires
        0 <= index <= l.len(),
        from != here,
    ensures
        ({
            let r = recorded(l, index, from);
            let w = walked_from(r, r.len() as int, here);
            &&& r.len() > 0
            &&& w[r.len() - 1] == from
            &&& r.len() < w.len()
            &&& w[r.len() as int] == here
        }),
{
}

/// The marks: a position per buffer and letter, each key once.
pub struct Marks {
    pub entries: Vec<(BufId, char, Cursor)>,
}

/// The position marked for `(buf, ch)`.
pub open spec fn mark_of(s: Seq<(BufId, char, Cursor)>, buf: BufId, ch: char) -> Option<Cursor>
    decreases s.len(),
{
    if s.len() == 0 {
        None
    } else if s.last().0 == buf && s.last().1 == ch {
        Some(s.last().2)
    } else {
        mark_of(s.drop_last(), buf, ch)
    }
}

/// The mark a jump reads: `` ` `` and `'` both name the pre-jump spot.
pub open spec fn mark_key(ch: char) -> char {
    if ch == '`' || ch == '\'' {
        '`'
    } else {
        ch
    }
}

impl Marks {
    /// No marks.
    pub fn new() -> (m: Marks)
        ensures
            m.entries@.len() == 0,
    {
        Marks { entries: Vec::new() }
    }

    /// Sets mark `ch` of buffer `buf` to `c`; other marks keep theirs.
    fn put(&mut self, buf: BufId, ch: char, c: Cursor)
        ensures
            mark_of(final(self).entries@, buf, ch) == Some(c),
            forall|b: BufId, x: char|
                !(b == buf && x == ch) ==> #[trigger] mark_of(final(self).entries@, b, x) == mark_of(
                    old(self).entries@,
                    b,
                    x,
                ),
    {
        let ghost s0 = self.entries@;
        self.entries.push((buf, ch, c));
        assert(self.entries@.drop_last() =~= s0);
    }

    /// `m{x}`: sets mark `x` (a letter or digit; anything else is ignored)
    /// at `c` in buffer `buf`.
    pub fn set(&mut self, buf: BufId, ch: char, c: Cursor)
        ensures
            spec_ascii_alnum(ch) ==> mark_of(final(self).entries@, buf, ch) == Some(c),
            forall|b: BufId, x: char|
                !(spec_ascii_alnum(ch) && b == buf && x == ch) ==> #[trigger] mark_of(
                    final(self).entries@,
                    b,
                    x,
                ) == mark_of(old(self).entries@, b, x),
    {
        if is_ascii_alnum(ch) {
            self.put(buf, ch, c);
        }
    }

    /// Remembers `c` as the pre-jump spot of buffer `buf`.
    pub fn set_jump_source(&mut self, buf: BufId, c: Cursor)
        ensures
            mark_of(final(self).entries@, buf, '`') == Some(c),
            forall|b: BufId, x: char|
                !(b == buf && x == '`') ==> #[trigger] mark_of(final(self).entries@, b, x) == mark_of(
                    old(self).entries@,
                    b,
                    x,
                ),
    {
        self.put(buf, '`', c);
    }

    /// The mark a `` `x `` / `'x` jump goes to (see [`mark_key`]).
    pub fn get(&self, buf: BufId, ch: char) -> (r: Option<Cursor>)
        ensures
            r == mark_of(self.entries@, buf, mark_key(ch)),
    {
        let key = if ch == '`' || ch == '\'' {
            '`'
        } else {
            ch
        };
        let mut i: usize = self.entries.len();
        assert(self.entries@.take(i as int) =~= self.entries@);
        while i > 0
            invariant
                i <= self.entries@.len(),
                key == mark_key(ch),
                mark_of(self.entries@, buf, key) == mark_of(self.entries@.take(i as int), buf, key),
            decreases i,
        {
            let e = self.entries[i - 1];
            assert(self.entries@.take(i as int).drop_last() =~= self.entries@.take(i - 1));
            assert(self.entries@.take(i as int).last() == e);
            if e.0 == buf && e.1 == key {
                assert(self.entries@.take(i as int).len() == i);
                assert(mark_of(self.entries@.take(i as int), buf, key) == Some(e.2));
                return Some(e.2);
            }
            i -= 1;
        }
        None
    }
}

/// A mark reads back what was last set for it.
pub proof fn lemma_mark_read_back(s: Seq<(BufId, char, Cursor)>, buf: BufId, ch: char, c: Cursor)
    requires
        spec_ascii_alnum(ch),
    ensures
        mark_of(s.push((buf, ch, c)), buf, mark_key(ch)) == Some(c),
{
    assert(ch != '`' && ch != '\'');
}

/// Where a jump to a mark lands: its line (the last line when the text no
/// longer reaches it), at the mark's column (`exact`) or the line's first
/// non-blank, kept on the text.
pub open spec fn mark_landing(t: Seq<char>, target: Cursor, exact: bool, mode: crate::editor::Mode) -> Cursor {
    let last = spec_text_lines(t) - 1;
    let line = if target.line < last { target.line as int } else { last };
    let col = if exact { target.col as int } else { spec_first_non_blank(spec_line_content(t, line as nat)) };
    spec_clamp(t, Cursor { line: line as usize, col: col as usize }, mode)
}

impl EditState {
    /// Jumps to a mark's position (see [`mark_landing`]).
    pub fn jump_to_mark(&mut self, target: Cursor, exact: bool)
        requires
            text_fits(old(self).buffer@.text, TABSTOP as nat),
        ensures
            final(self).cursor == mark_landing(old(self).buffer@.text, target, exact, old(self).mode),
            final(self).goal is None,
            final(self).buffer == old(self).buffer,
            final(self).mode == old(self).mode,
            final(self).yank_reg == old(self).yank_reg,
            final(self).cut_reg == old(self).cut_reg,
            final(self).last_find == old(self).last_find,
            final(self).change_started == old(self).change_started,
    {
        proof {
            lemma_text_lines_bound(self.buffer@.text);
        }
        let last = text_lines(&self.buffer.rope) - 1;
        let line = if target.line < last { target.line } else { last };
        let col = if exact { target.col } else { first_non_blank(&self.buffer.rope, line) };
        self.cursor = Cursor { line, col };
        self.goal = None;
        self.clamp_cursor();
    }
}

} // verus!
