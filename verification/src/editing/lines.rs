//! Lines of a buffer's rope as the user sees them: counted like vim (the
//! empty slot after a final newline is not a line), without their newline.

use vstd::prelude::*;

use ropey::Rope;

use crate::chars::{chars_of, spec_is_whitespace, string_of};
use crate::editing::rope::{
    line_chars, line_count, rope_char, rope_len_chars, rope_len_lines, rope_line, rope_text,
};
use crate::editing::text::{layout_fits, line_graphemes, spec_line_graphemes};

verus! {

/// Number of lines as the user sees them: the empty slot after a trailing
/// newline does not count, but an empty buffer still has one line.
pub open spec fn spec_text_lines(t: Seq<char>) -> nat {
    if t.len() == 0 {
        1
    } else if t.last() == '\n' {
        if line_count(t) - 1 >= 1 {
            (line_count(t) - 1) as nat
        } else {
            1
        }
    } else {
        line_count(t)
    }
}

/// There is at least one line as the user sees them, and no more than the
/// rope counts.
pub proof fn lemma_text_lines_bound(t: Seq<char>)
    ensures
        1 <= spec_text_lines(t) <= line_count(t),
{
    if t.len() > 0 && t.last() == '\n' {
        assert(crate::editing::rope::is_break_end(t, t.len() as int));
        assert(crate::editing::rope::breaks_upto(t, t.len() as int) >= 1);
    }
}

/// Number of lines as the user sees them.
pub fn text_lines(rope: &Rope) -> (n: usize)
    ensures
        n == spec_text_lines(rope_text(*rope)),
        n >= 1,
{
    let n = rope_len_chars(rope);
    if n == 0 {
        return 1;
    }
    if rope_char(rope, n - 1) == '\n' {
        let l = rope_len_lines(rope);
        if l - 1 >= 1 {
            l - 1
        } else {
            1
        }
    } else {
        rope_len_lines(rope)
    }
}

/// A line's chars without its trailing newline.
pub open spec fn spec_line_content(t: Seq<char>, l: nat) -> Seq<char> {
    let c = line_chars(t, l);
    if c.len() > 0 && c.last() == '\n' {
        c.drop_last()
    } else {
        c
    }
}

/// Line content without the trailing newline (the line must exist).
pub fn line_content(rope: &Rope, line: usize) -> (s: String)
    requires
        line < line_count(rope_text(*rope)),
    ensures
        s@ == spec_line_content(rope_text(*rope), line as nat),
{
    let full = rope_line(rope, line);
    let v = chars_of(full.as_str());
    if v.len() > 0 && v[v.len() - 1] == '\n' {
        let w = crate::chars::slice_vec(v.as_slice(), 0, v.len() - 1);
        assert(w@ =~= v@.drop_last());
        string_of(w.as_slice())
    } else {
        full
    }
}

/// Line length in chars, excluding the trailing newline (the line must
/// exist).
pub fn line_len(rope: &Rope, line: usize) -> (n: usize)
    requires
        line < line_count(rope_text(*rope)),
    ensures
        n == spec_line_content(rope_text(*rope), line as nat).len(),
{
    let full = rope_line(rope, line);
    let v = chars_of(full.as_str());
    if v.len() > 0 && v[v.len() - 1] == '\n' {
        v.len() - 1
    } else {
        v.len()
    }
}

/// Index of the first non-blank char at or after `i`, if any.
pub open spec fn first_non_blank_from(s: Seq<char>, i: int) -> Option<int>
    decreases s.len() - i,
{
    if i < 0 || i >= s.len() {
        None
    } else if !spec_is_whitespace(s[i]) {
        Some(i)
    } else {
        first_non_blank_from(s, i + 1)
    }
}

pub proof fn lemma_first_non_blank_from(s: Seq<char>, i: int)
    ensures
        first_non_blank_from(s, i) matches Some(k) ==> 0 <= i <= k < s.len(),
    decreases s.len() - i,
{
    if 0 <= i < s.len() && spec_is_whitespace(s[i]) {
        lemma_first_non_blank_from(s, i + 1);
    }
}

/// Char column of the first non-blank char; all-blank lines yield the last
/// column (vim's `^`), empty lines 0.
pub open spec fn spec_first_non_blank(s: Seq<char>) -> int {
    match first_non_blank_from(s, 0) {
        Some(i) => i,
        None => if s.len() > 0 {
            s.len() - 1
        } else {
            0
        },
    }
}

/// Char column of the first non-blank character of a line.
pub fn first_non_blank(rope: &Rope, line: usize) -> (c: usize)
    requires
        line < line_count(rope_text(*rope)),
    ensures
        c == spec_first_non_blank(spec_line_content(rope_text(*rope), line as nat)),
        c <= spec_line_content(rope_text(*rope), line as nat).len(),
{
    let content = line_content(rope, line);
    let v = chars_of(content.as_str());
    let mut i: usize = 0;
    while i < v.len()
        invariant
            i <= v@.len(),
            v@ == spec_line_content(rope_text(*rope), line as nat),
            first_non_blank_from(v@, 0) == first_non_blank_from(v@, i as int),
        decreases v@.len() - i,
    {
        if !v[i].is_whitespace() {
            return i;
        }
        i += 1;
    }
    if v.len() > 0 {
        v.len() - 1
    } else {
        0
    }
}

/// Length of the run of spaces and tabs opening `s`.
pub open spec fn indent_len(s: Seq<char>) -> nat
    decreases s.len(),
{
    if s.len() > 0 && (s[0] == ' ' || s[0] == '\t') {
        1 + indent_len(s.skip(1))
    } else {
        0
    }
}

/// Leading spaces and tabs of a line (for auto-indent).
pub fn line_indent(rope: &Rope, line: usize) -> (s: String)
    requires
        line < line_count(rope_text(*rope)),
    ensures
        s@ == spec_line_content(rope_text(*rope), line as nat).take(
            indent_len(spec_line_content(rope_text(*rope), line as nat)) as int,
        ),
{
    let content = line_content(rope, line);
    let v = chars_of(content.as_str());
    let mut i: usize = 0;
    assert(v@.skip(0) =~= v@);
    while i < v.len() && (v[i] == ' ' || v[i] == '\t')
        invariant
            i <= v@.len(),
            indent_len(v@) == i + indent_len(v@.skip(i as int)),
        decreases v@.len() - i,
    {
        assert(v@.skip(i as int).skip(1) =~= v@.skip(i + 1));
        i += 1;
    }
    proof {
        if i < v@.len() {
            assert(v@.skip(i as int)[0] == v@[i as int]);
        }
    }
    let w = crate::chars::slice_vec(v.as_slice(), 0, i);
    assert(w@ =~= v@.take(i as int));
    string_of(w.as_slice())
}

/// Last grapheme-start column usable in normal mode (0 on an empty line).
pub open spec fn spec_max_normal_col(s: Seq<char>, tabstop: nat) -> int {
    let g = spec_line_graphemes(s, tabstop);
    if g.len() > 0 {
        g.last().char_off as int
    } else {
        0
    }
}

/// Last grapheme-start column usable in normal mode on a line.
pub fn max_normal_col(rope: &Rope, line: usize, tabstop: usize) -> (c: usize)
    requires
        line < line_count(rope_text(*rope)),
        layout_fits(spec_line_content(rope_text(*rope), line as nat), tabstop as nat),
    ensures
        c == spec_max_normal_col(spec_line_content(rope_text(*rope), line as nat), tabstop as nat),
        c <= spec_line_content(rope_text(*rope), line as nat).len(),
{
    let content = line_content(rope, line);
    let grs = line_graphemes(content.as_str(), tabstop);
    if grs.len() > 0 {
        assert(grs@[grs@.len() - 1].chars >= 1);
        grs[grs.len() - 1].char_off
    } else {
        0
    }
}

} // verus!
