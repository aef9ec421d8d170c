//! Text objects. Operators and visual mode take an object after the prefix
//! `a` (around) or `n` (inner). Each resolver gives a char range
//! `start..end` (end exclusive) and whether it is linewise. These are the
//! lexical objects (words, paragraphs, brackets, quotes), found by plain
//! scanning of the text.

use vstd::prelude::*;

use ropey::Rope;

use crate::chars::{chars_of, spec_is_whitespace, unicode_alphanumeric};
use crate::editing::buffer::Cursor;
use crate::editing::lines::{line_content, line_len, spec_line_content, spec_text_lines, text_lines};
use crate::editing::rope::{
    lemma_line_chars_len, lemma_line_start, line_count, line_start, rope_char, rope_len_chars,
    rope_len_lines, rope_line_to_char, rope_text,
};

verus! {

/// What an object key selects.
#[derive(Clone, Copy, PartialEq, Eq, Debug, Structural)]
pub enum ObjKind {
    Word { big: bool },
    Paragraph,
    /// A bracket pair, e.g. `('(', ')')`.
    Pair(char, char),
    /// A quote character, e.g. `"`.
    Quote(char),
}

/// The object a key names: `w`/`W`, `p`, the bracket pairs (`(` `)` `b`;
/// `{` `}` `B`; `[` `]`; `<` `>`) and the three quotes.
pub open spec fn spec_parse(ch: char) -> Option<ObjKind> {
    if ch == 'w' {
        Some(ObjKind::Word { big: false })
    } else if ch == 'W' {
        Some(ObjKind::Word { big: true })
    } else if ch == 'p' {
        Some(ObjKind::Paragraph)
    } else if ch == '(' || ch == ')' || ch == 'b' {
        Some(ObjKind::Pair('(', ')'))
    } else if ch == '{' || ch == '}' || ch == 'B' {
        Some(ObjKind::Pair('{', '}'))
    } else if ch == '[' || ch == ']' {
        Some(ObjKind::Pair('[', ']'))
    } else if ch == '<' || ch == '>' {
        Some(ObjKind::Pair('<', '>'))
    } else if ch == '"' || ch == '\'' || ch == '`' {
        Some(ObjKind::Quote(ch))
    } else {
        None
    }
}

/// Maps an object key to its kind.
pub fn parse(ch: char) -> (r: Option<ObjKind>)
    ensures
        r == spec_parse(ch),
{
    match ch {
        'w' => Some(ObjKind::Word { big: false }),
        'W' => Some(ObjKind::Word { big: true }),
        'p' => Some(ObjKind::Paragraph),
        '(' | ')' | 'b' => Some(ObjKind::Pair('(', ')')),
        '{' | '}' | 'B' => Some(ObjKind::Pair('{', '}')),
        '[' | ']' => Some(ObjKind::Pair('[', ']')),
        '<' | '>' => Some(ObjKind::Pair('<', '>')),
        '"' => Some(ObjKind::Quote('"')),
        '\'' => Some(ObjKind::Quote('\'')),
        '`' => Some(ObjKind::Quote('`')),
        _ => None,
    }
}

/// A resolved object: `start..end` in chars, and whether it spans whole
/// lines so that an operator treats it linewise.
#[derive(Clone, Copy, PartialEq, Eq, Debug, Structural)]
pub struct Range {
    pub start: usize,
    pub end: usize,
    pub linewise: bool,
}

pub open spec fn range(start: int, end: int, linewise: bool) -> Range {
    Range { start: start as usize, end: end as usize, linewise }
}

// ----------------------------------------------------------------------
// words
// ----------------------------------------------------------------------

#[derive(Clone, Copy, PartialEq, Eq, Structural)]
pub enum Class {
    Word,
    Punct,
    Blank,
}

pub open spec fn is_blank_char(c: char) -> bool {
    c == ' ' || c == '\t'
}

/// Word-object class: blanks, word chars (every non-blank for `W`), and
/// the rest.
pub open spec fn spec_class(c: char, big: bool) -> Class {
    if is_blank_char(c) {
        Class::Blank
    } else if big || unicode_alphanumeric(c) || c == '_' {
        Class::Word
    } else {
        Class::Punct
    }
}

fn class(c: char, big: bool) -> (r: Class)
    ensures
        r == spec_class(c, big),
{
    if c == ' ' || c == '\t' {
        Class::Blank
    } else if big || c.is_alphanumeric() || c == '_' {
        Class::Word
    } else {
        Class::Punct
    }
}

/// Char `i` exists, is on the same line, and has class `cl`.
pub open spec fn same(t: Seq<char>, i: int, cl: Class, big: bool) -> bool {
    0 <= i < t.len() && t[i] != '\n' && spec_class(t[i], big) == cl
}

/// Leftmost start of the run of class `cl` that ends at `i`.
pub open spec fn run_start(t: Seq<char>, i: int, cl: Class, big: bool) -> int
    decreases i,
{
    if i > 0 && same(t, i - 1, cl, big) {
        run_start(t, i - 1, cl, big)
    } else {
        i
    }
}

/// Last index of the run of class `cl` that starts at `i`.
pub open spec fn run_end(t: Seq<char>, i: int, cl: Class, big: bool) -> int
    decreases t.len() - i,
{
    if i + 1 < t.len() && same(t, i + 1, cl, big) {
        run_end(t, i + 1, cl, big)
    } else {
        i
    }
}

proof fn lemma_run_start(t: Seq<char>, i: int, cl: Class, big: bool)
    requires
        i >= 0,
    ensures
        0 <= run_start(t, i, cl, big) <= i,
    decreases i,
{
    if i > 0 && same(t, i - 1, cl, big) {
        lemma_run_start(t, i - 1, cl, big);
    }
}

pub proof fn lemma_run_end(t: Seq<char>, i: int, cl: Class, big: bool)
    requires
        0 <= i < t.len(),
    ensures
        i <= run_end(t, i, cl, big) < t.len(),
    decreases t.len() - i,
{
    if i + 1 < t.len() && same(t, i + 1, cl, big) {
        lemma_run_end(t, i + 1, cl, big);
    }
}

/// Last index of `remaining` consecutive runs starting at `e`, stopping at
/// the end of the line or the text.
pub open spec fn runs_end(t: Seq<char>, e: int, remaining: nat, big: bool) -> int
    decreases t.len() - e,
{
    if 0 <= e < t.len() {
        let e2 = run_end(t, e, spec_class(t[e], big), big);
        proof {
            lemma_run_end(t, e, spec_class(t[e], big), big);
        }
        if remaining <= 1 || e2 + 1 >= t.len() || t[e2 + 1] == '\n' {
            e2
        } else {
            runs_end(t, e2 + 1, (remaining - 1) as nat, big)
        }
    } else {
        e
    }
}

proof fn lemma_runs_end(t: Seq<char>, e: int, remaining: nat, big: bool)
    requires
        0 <= e < t.len(),
    ensures
        e <= runs_end(t, e, remaining, big) < t.len(),
    decreases t.len() - e,
{
    let e2 = run_end(t, e, spec_class(t[e], big), big);
    lemma_run_end(t, e, spec_class(t[e], big), big);
    if !(remaining <= 1 || e2 + 1 >= t.len() || t[e2 + 1] == '\n') {
        lemma_runs_end(t, e2 + 1, (remaining - 1) as nat, big);
    }
}

/// First index at or after `i` that is not a blank.
pub open spec fn blank_end(t: Seq<char>, i: int) -> int
    decreases t.len() - i,
{
    if 0 <= i < t.len() && is_blank_char(t[i]) {
        blank_end(t, i + 1)
    } else {
        i
    }
}

/// Leftmost start of the blanks that end just before `i`.
pub open spec fn blank_start(t: Seq<char>, i: int) -> int
    decreases i,
{
    if 0 < i <= t.len() && is_blank_char(t[i - 1]) {
        blank_start(t, i - 1)
    } else {
        i
    }
}

proof fn lemma_blank_end(t: Seq<char>, i: int)
    requires
        0 <= i <= t.len(),
    ensures
        i <= blank_end(t, i) <= t.len(),
    decreases t.len() - i,
{
    if 0 <= i < t.len() && is_blank_char(t[i]) {
        lemma_blank_end(t, i + 1);
    }
}

proof fn lemma_blank_start(t: Seq<char>, i: int)
    requires
        0 <= i <= t.len(),
    ensures
        0 <= blank_start(t, i) <= i,
    decreases i,
{
    if 0 < i <= t.len() && is_blank_char(t[i - 1]) {
        lemma_blank_start(t, i - 1);
    }
}

/// `nw`/`aw` (and `nW`/`aW`): the run of same-class chars under `abs`,
/// extended over `count` runs; the around form adds the blanks after it,
/// or those before it when none follow. Never crosses a line break.
pub open spec fn spec_word_object(t: Seq<char>, abs: int, big: bool, around: bool, count: nat) -> Option<Range> {
    if t.len() == 0 {
        None
    } else {
        let a = if abs < t.len() - 1 {
            abs
        } else {
            t.len() - 1
        };
        if t[a] == '\n' {
            None
        } else {
            let start = run_start(t, a, spec_class(t[a], big), big);
            let end = runs_end(t, a, count, big) + 1;
            if !around {
                Some(range(start, end, false))
            } else if blank_end(t, end) > end {
                Some(range(start, blank_end(t, end), false))
            } else {
                Some(range(blank_start(t, start), end, false))
            }
        }
    }
}

/// Letters, digits and `_` make up words.
pub open spec fn word_char(c: char) -> bool {
    unicode_alphanumeric(c) || c == '_'
}

/// Two chars of the same kind for a word object: both blanks, or both
/// non-blank and both word chars or both not (every non-blank counts as a
/// word char for `W`).
pub open spec fn same_kind(c: char, d: char, big: bool) -> bool {
    &&& is_blank_char(c) == is_blank_char(d)
    &&& !is_blank_char(c) ==> (big || word_char(c)) == (big || word_char(d))
}

proof fn lemma_run_start_props(t: Seq<char>, i: int, cl: Class, big: bool)
    requires
        0 <= i < t.len(),
    ensures
        0 <= run_start(t, i, cl, big) <= i,
        forall|k: int| run_start(t, i, cl, big) <= k < i ==> #[trigger] same(t, k, cl, big),
        run_start(t, i, cl, big) > 0 ==> !same(t, run_start(t, i, cl, big) - 1, cl, big),
    decreases i,
{
    if i > 0 && same(t, i - 1, cl, big) {
        lemma_run_start_props(t, i - 1, cl, big);
    }
}

proof fn lemma_run_end_props(t: Seq<char>, i: int, cl: Class, big: bool)
    requires
        0 <= i < t.len(),
    ensures
        i <= run_end(t, i, cl, big) < t.len(),
        forall|k: int| i < k <= run_end(t, i, cl, big) ==> #[trigger] same(t, k, cl, big),
        run_end(t, i, cl, big) + 1 < t.len() ==> !same(t, run_end(t, i, cl, big) + 1, cl, big),
    decreases t.len() - i,
{
    if i + 1 < t.len() && same(t, i + 1, cl, big) {
        lemma_run_end_props(t, i + 1, cl, big);
    }
}

/// Law of `iw`/`iW` (one word): the range holds the char under the cursor
/// and only chars of its kind on its line, letters, digits and `_` all
/// being word chars; it cannot grow, the chars just outside it being line
/// breaks or of another kind.
pub proof fn lemma_inner_word_law(t: Seq<char>, abs: int, big: bool)
    requires
        0 <= abs < t.len(),
        t.len() <= usize::MAX,
        t[abs] != '\n',
    ensures
        spec_word_object(t, abs, big, false, 1) matches Some(r) && {
            &&& r.start <= abs < r.end <= t.len()
            &&& forall|k: int|
                r.start <= k < r.end ==> #[trigger] t[k] != '\n' && same_kind(t[k], t[abs], big)
            &&& r.start > 0 ==> t[r.start - 1] == '\n' || !same_kind(t[r.start - 1], t[abs], big)
            &&& r.end < t.len() ==> t[r.end as int] == '\n' || !same_kind(t[r.end as int], t[abs], big)
        },
{
    let cl = spec_class(t[abs], big);
    lemma_run_start_props(t, abs, cl, big);
    lemma_run_end_props(t, abs, cl, big);
    let st = run_start(t, abs, cl, big);
    let en = run_end(t, abs, cl, big);
    assert(runs_end(t, abs, 1, big) == en);
    let r = spec_word_object(t, abs, big, false, 1).unwrap();
    assert(r == range(st, en + 1, false));
    assert forall|k: int| st <= k < en + 1 implies #[trigger] t[k] != '\n' && same_kind(t[k], t[abs], big) by {
        if k < abs {
            assert(same(t, k, cl, big));
        } else if k > abs {
            assert(same(t, k, cl, big));
        }
    };
    if st > 0 {
        assert(!same(t, st - 1, cl, big));
    }
    if en + 1 < t.len() {
        assert(!same(t, en + 1, cl, big));
    }
}

proof fn lemma_blank_end_props(t: Seq<char>, i: int)
    requires
        0 <= i <= t.len(),
    ensures
        forall|k: int| i <= k < blank_end(t, i) ==> #[trigger] is_blank_char(t[k]),
        blank_end(t, i) < t.len() ==> !is_blank_char(t[blank_end(t, i)]),
    decreases t.len() - i,
{
    if i < t.len() && is_blank_char(t[i]) {
        lemma_blank_end_props(t, i + 1);
    }
}

proof fn lemma_blank_start_props(t: Seq<char>, i: int)
    requires
        0 <= i <= t.len(),
    ensures
        forall|k: int| blank_start(t, i) <= k < i ==> #[trigger] is_blank_char(t[k]),
        blank_start(t, i) > 0 ==> !is_blank_char(t[blank_start(t, i) - 1]),
    decreases i,
{
    if 0 < i && is_blank_char(t[i - 1]) {
        lemma_blank_start_props(t, i - 1);
    }
}

/// Law of `aw`/`aW` against `iw`/`iW` (one word): the around object holds
/// the inner one and adds only blanks: all the blanks that follow the
/// word when some do, else all the blanks that precede it.
pub proof fn lemma_around_word_law(t: Seq<char>, abs: int, big: bool)
    requires
        0 <= abs < t.len(),
        t.len() <= usize::MAX,
        t[abs] != '\n',
    ensures
        spec_word_object(t, abs, big, false, 1) is Some,
        spec_word_object(t, abs, big, true, 1) is Some,
        ({
            let i = spec_word_object(t, abs, big, false, 1)->0;
            let a = spec_word_object(t, abs, big, true, 1)->0;
            &&& a.start <= i.start && i.end <= a.end
            &&& !a.linewise
            &&& (i.end < t.len() && is_blank_char(t[i.end as int])) ==> {
                &&& a.start == i.start
                &&& forall|k: int| i.end <= k < a.end ==> #[trigger] is_blank_char(t[k])
                &&& a.end < t.len() ==> !is_blank_char(t[a.end as int])
            }
            &&& !(i.end < t.len() && is_blank_char(t[i.end as int])) ==> {
                &&& a.end == i.end
                &&& forall|k: int| a.start <= k < i.start ==> #[trigger] is_blank_char(t[k])
                &&& a.start > 0 ==> !is_blank_char(t[a.start - 1])
            }
        }),
{
    lemma_inner_word_law(t, abs, big);
    let cl = spec_class(t[abs], big);
    let st = run_start(t, abs, cl, big);
    let en = runs_end(t, abs, 1, big) + 1;
    lemma_run_start_props(t, abs, cl, big);
    lemma_runs_end(t, abs, 1, big);
    let i = spec_word_object(t, abs, big, false, 1)->0;
    assert(i == range(st, en, false));
    assert(i.start == st && i.end == en);
    lemma_blank_end(t, en);
    lemma_blank_end_props(t, en);
    lemma_blank_start(t, st);
    lemma_blank_start_props(t, st);
    let a = spec_word_object(t, abs, big, true, 1)->0;
    if blank_end(t, en) > en {
        assert(a == range(st, blank_end(t, en), false));
        assert(a.start == st && a.end == blank_end(t, en));
    } else {
        assert(a == range(blank_start(t, st), en, false));
        assert(a.start == blank_start(t, st) && a.end == en);
    }
}

/// Law of the bracket objects: the inner object lies between an `open`
/// and a `close` bracket, the open one at or before the cursor, and the
/// around object is the inner one with both brackets.
pub proof fn lemma_pair_object_law(t: Seq<char>, abs: int, open: char, close: char)
    requires
        0 <= abs,
        t.len() <= usize::MAX,
    ensures
        spec_pair_object(t, abs, open, close, false) is Some <==> spec_pair_object(t, abs, open, close, true) is Some,
        spec_pair_object(t, abs, open, close, false) matches Some(r) ==> {
            &&& 1 <= r.start <= r.end < t.len()
            &&& t[r.start - 1] == open
            &&& t[r.end as int] == close
            &&& r.start - 1 <= abs
            &&& spec_pair_object(t, abs, open, close, true) == Some(range(r.start - 1, r.end + 1, false))
        },
{
    if t.len() > 0 {
        let a = if abs < t.len() - 1 {
            abs
        } else {
            t.len() - 1
        };
        lemma_open_before(t, a, a, 0, open, close);
        let open_pos = if t[a] == open {
            Some(a)
        } else {
            open_before(t, a, a, 0, open, close)
        };
        if open_pos is Some {
            let o = open_pos->0;
            lemma_close_after(t, o + 1, 0, open, close);
            if close_after(t, o + 1, 0, open, close) is Some {
                let c = close_after(t, o + 1, 0, open, close)->0;
                let r = range(o + 1, c, false);
                assert(r.start == o + 1 && r.end == c);
                assert(spec_pair_object(t, abs, open, close, false) == Some(r));
                assert(spec_pair_object(t, abs, open, close, true) == Some(range(o, c + 1, false)));
            }
        }
    }
}

fn same_at(rope: &Rope, len: usize, i: usize, cl: Class, big: bool) -> (b: bool)
    requires
        len == rope_text(*rope).len(),
    ensures
        b == same(rope_text(*rope), i as int, cl, big),
{
    if i < len {
        let c = rope_char(rope, i);
        c != '\n' && class(c, big) == cl
    } else {
        false
    }
}

fn blank_at(rope: &Rope, len: usize, i: usize) -> (b: bool)
    requires
        len == rope_text(*rope).len(),
        i < len,
    ensures
        b == is_blank_char(rope_text(*rope)[i as int]),
{
    let c = rope_char(rope, i);
    c == ' ' || c == '\t'
}

fn word_object(rope: &Rope, abs: usize, big: bool, around: bool, count: usize) -> (r: Option<Range>)
    requires
        count >= 1,
    ensures
        r == spec_word_object(rope_text(*rope), abs as int, big, around, count as nat),
{
    let ghost t = rope_text(*rope);
    let len = rope_len_chars(rope);
    if len == 0 {
        return None;
    }
    let abs = if abs < len - 1 {
        abs
    } else {
        len - 1
    };
    if rope_char(rope, abs) == '\n' {
        return None;
    }
    let cl0 = class(rope_char(rope, abs), big);
    let mut start = abs;
    while start > 0 && same_at(rope, len, start - 1, cl0, big)
        invariant
            len == t.len(),
            t == rope_text(*rope),
            0 <= start <= abs < len,
            run_start(t, start as int, cl0, big) == run_start(t, abs as int, cl0, big),
        decreases start,
    {
        start = start - 1;
    }
    let mut end = abs;
    let mut remaining = count;
    loop
        invariant_except_break
            1 <= remaining,
            runs_end(t, end as int, remaining as nat, big) == runs_end(t, abs as int, count as nat, big),
        invariant
            len == t.len(),
            t == rope_text(*rope),
            0 <= end < len,
        ensures
            0 <= end < len,
            end == runs_end(t, abs as int, count as nat, big),
        decreases len - end,
    {
        let cl = class(rope_char(rope, end), big);
        let ghost e0 = end as int;
        let ghost r0 = remaining as nat;
        while end + 1 < len && same_at(rope, len, end + 1, cl, big)
            invariant
                len == t.len(),
                t == rope_text(*rope),
                e0 <= end < len,
                run_end(t, end as int, cl, big) == run_end(t, e0, cl, big),
            decreases len - end,
        {
            end = end + 1;
        }
        proof {
            lemma_run_end(t, e0, cl, big);
        }
        assert(runs_end(t, e0, r0, big) == if r0 <= 1 || end + 1 >= t.len() || t[end + 1] == '\n' {
            end as int
        } else {
            runs_end(t, end + 1, (r0 - 1) as nat, big)
        });
        remaining = remaining - 1;
        if remaining == 0 || end + 1 >= len || rope_char(rope, end + 1) == '\n' {
            break;
        }
        end = end + 1;
    }
    let end = end + 1;
    if !around {
        return Some(Range { start, end, linewise: false });
    }
    let mut a_end = end;
    while a_end < len && blank_at(rope, len, a_end)
        invariant
            len == t.len(),
            t == rope_text(*rope),
            end <= a_end <= len,
            blank_end(t, a_end as int) == blank_end(t, end as int),
        decreases len - a_end,
    {
        a_end = a_end + 1;
    }
    if a_end > end {
        return Some(Range { start, end: a_end, linewise: false });
    }
    let mut a_start = start;
    while a_start > 0 && blank_at(rope, len, a_start - 1)
        invariant
            len == t.len(),
            t == rope_text(*rope),
            0 <= a_start <= start < len,
            blank_start(t, a_start as int) == blank_start(t, start as int),
        decreases a_start,
    {
        a_start = a_start - 1;
    }
    Some(Range { start: a_start, end, linewise: false })
}

// ----------------------------------------------------------------------
// paragraphs
// ----------------------------------------------------------------------

/// A line with nothing but whitespace.
pub open spec fn blank_line(t: Seq<char>, l: int) -> bool {
    forall|i: int|
        0 <= i < spec_line_content(t, l as nat).len() ==> spec_is_whitespace(
            #[trigger] spec_line_content(t, l as nat)[i],
        )
}

/// First line of the block of lines whose blankness is `b`, ending at `l`.
pub open spec fn block_start(t: Seq<char>, l: int, b: bool) -> int
    decreases l,
{
    if l > 0 && blank_line(t, l - 1) == b {
        block_start(t, l - 1, b)
    } else {
        l
    }
}

/// Last line (at most `last`) of the block of lines whose blankness is
/// `b`, starting at `l`.
pub open spec fn block_end(t: Seq<char>, l: int, b: bool, last: int) -> int
    decreases last - l,
{
    if l < last && blank_line(t, l + 1) == b {
        block_end(t, l + 1, b, last)
    } else {
        l
    }
}

pub proof fn lemma_block_start(t: Seq<char>, l: int, b: bool)
    requires
        l >= 0,
    ensures
        0 <= block_start(t, l, b) <= l,
    decreases l,
{
    if l > 0 && blank_line(t, l - 1) == b {
        lemma_block_start(t, l - 1, b);
    }
}

pub proof fn lemma_block_end(t: Seq<char>, l: int, b: bool, last: int)
    ensures
        l <= block_end(t, l, b, last),
        l <= last ==> block_end(t, l, b, last) <= last,
    decreases last - l,
{
    if l < last && blank_line(t, l + 1) == b {
        lemma_block_end(t, l + 1, b, last);
    }
}

/// Last line of `blocks` consecutive blocks starting at `l`.
pub open spec fn blocks_end(t: Seq<char>, l: int, blocks: nat, last: int) -> int
    decreases last - l,
{
    let e = block_end(t, l, blank_line(t, l), last);
    proof {
        lemma_block_end(t, l, blank_line(t, l), last);
    }
    if blocks <= 1 || e >= last {
        e
    } else {
        blocks_end(t, e + 1, (blocks - 1) as nat, last)
    }
}

pub proof fn lemma_blocks_end(t: Seq<char>, l: int, blocks: nat, last: int)
    ensures
        l <= blocks_end(t, l, blocks, last),
        l <= last ==> blocks_end(t, l, blocks, last) <= last,
    decreases last - l,
{
    let e = block_end(t, l, blank_line(t, l), last);
    lemma_block_end(t, l, blank_line(t, l), last);
    if !(blocks <= 1 || e >= last) {
        lemma_blocks_end(t, e + 1, (blocks - 1) as nat, last);
    }
}

/// Where the char range of lines `l1..=l2` ends: after `l2`'s break, or
/// at the end of the text.
pub open spec fn lines_end(t: Seq<char>, l2: int) -> int {
    if l2 + 1 >= line_count(t) {
        t.len() as int
    } else {
        line_start(t, (l2 + 1) as nat)
    }
}

/// `np`/`ap`: the block of like (blank or non-blank) lines around `line`,
/// over `count` blocks; the around form adds the following block of the
/// other kind, or the preceding one when none follows.
pub open spec fn spec_paragraph_object(t: Seq<char>, line: int, around: bool, count: nat) -> Option<Range> {
    let last = spec_text_lines(t) - 1;
    let on_blank = blank_line(t, line);
    let l1 = block_start(t, line, on_blank);
    let l2 = blocks_end(t, line, count, last);
    let (l1, l2) = if around {
        let a2 = block_end(t, l2, !blank_line(t, l2), last);
        if a2 > l2 {
            (l1, a2)
        } else {
            (block_start(t, l1, !on_blank), l2)
        }
    } else {
        (l1, l2)
    };
    Some(range(line_start(t, l1 as nat), lines_end(t, l2), true))
}

proof fn lemma_block_start_props(t: Seq<char>, l: int, b: bool)
    requires
        l >= 0,
    ensures
        forall|k: int| block_start(t, l, b) <= k < l ==> #[trigger] blank_line(t, k) == b,
        block_start(t, l, b) > 0 ==> blank_line(t, block_start(t, l, b) - 1) != b,
    decreases l,
{
    if l > 0 && blank_line(t, l - 1) == b {
        lemma_block_start_props(t, l - 1, b);
    }
}

proof fn lemma_block_end_props(t: Seq<char>, l: int, b: bool, last: int)
    ensures
        forall|k: int| l < k <= block_end(t, l, b, last) ==> #[trigger] blank_line(t, k) == b,
        block_end(t, l, b, last) < last ==> blank_line(t, block_end(t, l, b, last) + 1) != b,
    decreases last - l,
{
    if l < last && blank_line(t, l + 1) == b {
        lemma_block_end_props(t, l + 1, b, last);
    }
}

/// Law of `np`/`nP` (one paragraph): the object is whole lines, the block
/// of lines around the cursor's line that are all blank or all non-blank
/// as it is, and the block cannot grow: the lines just outside it differ
/// or do not exist.
pub proof fn lemma_inner_paragraph_law(t: Seq<char>, line: int)
    requires
        0 <= line < spec_text_lines(t),
    ensures
        exists|l1: int, l2: int|
            #![trigger range(line_start(t, l1 as nat), lines_end(t, l2), true)]
            {
                &&& 0 <= l1 <= line <= l2 < spec_text_lines(t)
                &&& spec_paragraph_object(t, line, false, 1) == Some(
                    range(line_start(t, l1 as nat), lines_end(t, l2), true),
                )
                &&& forall|k: int| l1 <= k <= l2 ==> #[trigger] blank_line(t, k) == blank_line(t, line)
                &&& l1 > 0 ==> blank_line(t, l1 - 1) != blank_line(t, line)
                &&& l2 + 1 < spec_text_lines(t) ==> blank_line(t, l2 + 1) != blank_line(t, line)
            },
{
    let last = spec_text_lines(t) - 1;
    let b = blank_line(t, line);
    let l1 = block_start(t, line, b);
    let l2 = blocks_end(t, line, 1, last);
    assert(l2 == block_end(t, line, b, last));
    lemma_block_start(t, line, b);
    lemma_block_end(t, line, b, last);
    lemma_block_start_props(t, line, b);
    lemma_block_end_props(t, line, b, last);
    assert(spec_paragraph_object(t, line, false, 1) == Some(range(line_start(t, l1 as nat), lines_end(t, l2), true)));
    assert(forall|k: int| l1 <= k <= l2 ==> #[trigger] blank_line(t, k) == blank_line(t, line));
}

fn is_blank_line(rope: &Rope, line: usize) -> (b: bool)
    requires
        line < line_count(rope_text(*rope)),
    ensures
        b == blank_line(rope_text(*rope), line as int),
{
    let ghost t = rope_text(*rope);
    let content = line_content(rope, line);
    let v = chars_of(content.as_str());
    let mut i: usize = 0;
    while i < v.len()
        invariant
            t == rope_text(*rope),
            v@ == spec_line_content(t, line as nat),
            i <= v.len(),
            forall|k: int| 0 <= k < i ==> spec_is_whitespace(#[trigger] v@[k]),
        decreases v.len() - i,
    {
        if !v[i].is_whitespace() {
            let ghost li = line as int;
            assert(!spec_is_whitespace(spec_line_content(t, li as nat)[i as int]));
            return false;
        }
        i = i + 1;
    }
    true
}

fn paragraph_object(rope: &Rope, line: usize, around: bool, count: usize) -> (r: Option<Range>)
    requires
        line < line_count(rope_text(*rope)),
        count >= 1,
    ensures
        r == spec_paragraph_object(rope_text(*rope), line as int, around, count as nat),
{
    let ghost t = rope_text(*rope);
    let n_lines = rope_len_lines(rope);
    let last = text_lines(rope) - 1;
    proof {
        crate::editing::lines::lemma_text_lines_bound(t);
    }
    let on_blank = is_blank_line(rope, line);
    let mut l1 = line;
    while l1 > 0 && is_blank_line(rope, l1 - 1) == on_blank
        invariant
            t == rope_text(*rope),
            l1 <= line < n_lines == line_count(t),
            block_start(t, l1 as int, on_blank) == block_start(t, line as int, on_blank),
        decreases l1,
    {
        l1 = l1 - 1;
    }
    let mut l2 = line;
    let mut blocks = count;
    loop
        invariant_except_break
            1 <= blocks,
            blocks_end(t, l2 as int, blocks as nat, last as int) == blocks_end(t, line as int, count as nat, last as int),
        invariant
            t == rope_text(*rope),
            n_lines == line_count(t),
            last < n_lines,
            line <= l2 < n_lines,
        ensures
            l2 == blocks_end(t, line as int, count as nat, last as int),
        decreases n_lines - l2,
    {
        let block_blank = is_blank_line(rope, l2);
        let ghost e0 = l2 as int;
        let ghost b0 = blocks as nat;
        while l2 < last && is_blank_line(rope, l2 + 1) == block_blank
            invariant
                t == rope_text(*rope),
                n_lines == line_count(t),
                last < n_lines,
                e0 <= l2 < n_lines,
                block_blank == blank_line(t, e0),
                block_end(t, l2 as int, block_blank, last as int) == block_end(t, e0, block_blank, last as int),
            decreases last - l2,
        {
            l2 = l2 + 1;
        }
        assert(blocks_end(t, e0, b0, last as int) == if b0 <= 1 || l2 >= last {
            l2 as int
        } else {
            blocks_end(t, l2 + 1, (b0 - 1) as nat, last as int)
        });
        blocks = blocks - 1;
        if blocks == 0 || l2 >= last {
            break;
        }
        l2 = l2 + 1;
    }
    if around {
        let after_blank = !is_blank_line(rope, l2);
        let mut a2 = l2;
        while a2 < last && is_blank_line(rope, a2 + 1) == after_blank
            invariant
                t == rope_text(*rope),
                n_lines == line_count(t),
                last < n_lines,
                l2 <= a2 < n_lines,
                block_end(t, a2 as int, after_blank, last as int) == block_end(t, l2 as int, after_blank, last as int),
            decreases last - a2,
        {
            a2 = a2 + 1;
        }
        if a2 > l2 {
            l2 = a2;
        } else {
            let ghost l1_0 = l1 as int;
            while l1 > 0 && is_blank_line(rope, l1 - 1) != on_blank
                invariant
                    t == rope_text(*rope),
                    l1 <= line < n_lines == line_count(t),
                    block_start(t, l1 as int, !on_blank) == block_start(t, l1_0, !on_blank),
                decreases l1,
            {
                l1 = l1 - 1;
            }
        }
    }
    let start = rope_line_to_char(rope, l1);
    let end = if l2 + 1 >= n_lines {
        rope_len_chars(rope)
    } else {
        rope_line_to_char(rope, l2 + 1)
    };
    Some(Range { start, end, linewise: true })
}

// ----------------------------------------------------------------------
// bracket pairs
// ----------------------------------------------------------------------

/// Scanning back from `i` (the cursor at `a`) with `depth` unmatched
/// closers seen: the open that encloses the cursor.
pub open spec fn open_before(t: Seq<char>, i: int, a: int, depth: nat, open: char, close: char) -> Option<int>
    decreases i,
{
    if i < 0 || i >= t.len() {
        None
    } else if t[i] == close && i != a {
        if i == 0 {
            None
        } else {
            open_before(t, i - 1, a, depth + 1, open, close)
        }
    } else if t[i] == open && depth == 0 {
        Some(i)
    } else {
        let d = if t[i] == open {
            (depth - 1) as nat
        } else {
            depth
        };
        if i == 0 {
            None
        } else {
            open_before(t, i - 1, a, d, open, close)
        }
    }
}

/// Scanning forward from `j` with `depth` unmatched opens seen: the close
/// that matches.
pub open spec fn close_after(t: Seq<char>, j: int, depth: nat, open: char, close: char) -> Option<int>
    decreases t.len() - j,
{
    if j < 0 || j >= t.len() {
        None
    } else if t[j] == open {
        close_after(t, j + 1, depth + 1, open, close)
    } else if t[j] == close {
        if depth == 0 {
            Some(j)
        } else {
            close_after(t, j + 1, (depth - 1) as nat, open, close)
        }
    } else {
        close_after(t, j + 1, depth, open, close)
    }
}

pub proof fn lemma_open_before(t: Seq<char>, i: int, a: int, depth: nat, open: char, close: char)
    ensures
        open_before(t, i, a, depth, open, close) matches Some(p) ==> 0 <= p <= i && t[p] == open,
    decreases i,
{
    if 0 <= i < t.len() && i > 0 {
        if t[i] == close && i != a {
            lemma_open_before(t, i - 1, a, depth + 1, open, close);
        } else if !(t[i] == open && depth == 0) {
            let d = if t[i] == open {
                (depth - 1) as nat
            } else {
                depth
            };
            lemma_open_before(t, i - 1, a, d, open, close);
        }
    }
}

pub proof fn lemma_close_after(t: Seq<char>, j: int, depth: nat, open: char, close: char)
    ensures
        close_after(t, j, depth, open, close) matches Some(p) ==> j <= p < t.len() && t[p] == close,
    decreases t.len() - j,
{
    if 0 <= j < t.len() {
        if t[j] == open {
            lemma_close_after(t, j + 1, depth + 1, open, close);
        } else if t[j] == close {
            if depth != 0 {
                lemma_close_after(t, j + 1, (depth - 1) as nat, open, close);
            }
        } else {
            lemma_close_after(t, j + 1, depth, open, close);
        }
    }
}

/// `n(`/`a(` and the like: the pair enclosing `abs` (the char there may be
/// the open itself), across lines and honoring nesting of the same pair;
/// the around form includes the brackets.
pub open spec fn spec_pair_object(t: Seq<char>, abs: int, open: char, close: char, around: bool) -> Option<Range> {
    if t.len() == 0 {
        None
    } else {
        let a = if abs < t.len() - 1 {
            abs
        } else {
            t.len() - 1
        };
        let open_pos = if t[a] == open {
            Some(a)
        } else {
            open_before(t, a, a, 0, open, close)
        };
        match open_pos {
            None => None,
            Some(o) => pair_at(t, o, open, close, around),
        }
    }
}

/// The object for the open bracket at `o`: up to its matching close.
pub open spec fn pair_at(t: Seq<char>, o: int, open: char, close: char, around: bool) -> Option<Range> {
    match close_after(t, o + 1, 0, open, close) {
        None => None,
        Some(c) => if around {
            Some(range(o, c + 1, false))
        } else {
            Some(range(o + 1, c, false))
        },
    }
}

fn pair_object(rope: &Rope, abs: usize, open: char, close: char, around: bool) -> (r: Option<Range>)
    ensures
        r == spec_pair_object(rope_text(*rope), abs as int, open, close, around),
{
    let ghost t = rope_text(*rope);
    let len = rope_len_chars(rope);
    if len == 0 {
        return None;
    }
    let a = if abs < len - 1 {
        abs
    } else {
        len - 1
    };
    let open_pos = if rope_char(rope, a) == open {
        a
    } else {
        let mut depth: usize = 0;
        let mut i = a;
        loop
            invariant
                t == rope_text(*rope),
                len == t.len(),
                a == (if abs < len - 1 {
                    abs
                } else {
                    (len - 1) as usize
                }),
                i <= a < len,
                depth <= a - i,
                t[a as int] != open,
                open_before(t, i as int, a as int, depth as nat, open, close) == open_before(
                    t,
                    a as int,
                    a as int,
                    0,
                    open,
                    close,
                ),
            ensures
                i <= a,
                open_before(t, a as int, a as int, 0, open, close) == Some(i as int),
            decreases i,
        {
            let c = rope_char(rope, i);
            if c == close && i != a {
                if i == 0 {
                    return None;
                }
                depth = depth + 1;
            } else if c == open {
                if depth == 0 {
                    break;
                }
                depth = depth - 1;
                if i == 0 {
                    return None;
                }
            } else if i == 0 {
                return None;
            }
            i = i - 1;
        }
        i
    };
    proof {
        lemma_open_before(t, a as int, a as int, 0, open, close);
    }
    assert(spec_pair_object(t, abs as int, open, close, around) == pair_at(t, open_pos as int, open, close, around));
    let mut depth: usize = 0;
    let mut j = open_pos + 1;
    loop
        invariant
            t == rope_text(*rope),
            len == t.len(),
            open_pos < j <= len,
            depth <= j - open_pos,
            spec_pair_object(t, abs as int, open, close, around) == pair_at(t, open_pos as int, open, close, around),
            close_after(t, j as int, depth as nat, open, close) == close_after(
                t,
                open_pos + 1,
                0,
                open,
                close,
            ),
        ensures
            close_after(t, open_pos + 1, 0, open, close) == Some(j as int),
            j < len,
        decreases len - j,
    {
        if j >= len {
            return None;
        }
        let c = rope_char(rope, j);
        if c == open {
            depth = depth + 1;
        } else if c == close {
            if depth == 0 {
                break;
            }
            depth = depth - 1;
        }
        j = j + 1;
    }
    let close_pos = j;
    if around {
        Some(Range { start: open_pos, end: close_pos + 1, linewise: false })
    } else {
        Some(Range { start: open_pos + 1, end: close_pos, linewise: false })
    }
}

// ----------------------------------------------------------------------
// quotes
// ----------------------------------------------------------------------

/// Columns of the quote char among the first `n` chars of a line, in order.
pub open spec fn quote_cols(lc: Seq<char>, q: char, n: int) -> Seq<int>
    decreases n,
{
    if n <= 0 {
        Seq::empty()
    } else if lc[n - 1] == q {
        quote_cols(lc, q, n - 1).push(n - 1)
    } else {
        quote_cols(lc, q, n - 1)
    }
}

pub proof fn lemma_quote_cols(lc: Seq<char>, q: char, n: int)
    requires
        0 <= n <= lc.len(),
    ensures
        quote_cols(lc, q, n).len() <= n,
        forall|k: int|
            0 <= k < quote_cols(lc, q, n).len() ==> 0 <= #[trigger] quote_cols(lc, q, n)[k] < n,
        forall|k1: int, k2: int|
            0 <= k1 < k2 < quote_cols(lc, q, n).len() ==> quote_cols(lc, q, n)[k1] < quote_cols(
                lc,
                q,
                n,
            )[k2],
    decreases n,
{
    if n > 0 {
        lemma_quote_cols(lc, q, n - 1);
    }
}

/// Quotes pair left to right: the pair `(cols[i], cols[i+1])` (with `i`
/// even) that covers `cur` or comes after it.
pub open spec fn pick_pair(cols: Seq<int>, cur: int, i: int) -> Option<(int, int)>
    decreases cols.len() - i,
{
    if 0 <= i && i + 1 < cols.len() {
        if cur <= cols[i + 1] {
            Some((cols[i], cols[i + 1]))
        } else {
            pick_pair(cols, cur, i + 2)
        }
    } else {
        None
    }
}

pub proof fn lemma_pick_pair(cols: Seq<int>, cur: int, i: int)
    requires
        0 <= i,
    ensures
        pick_pair(cols, cur, i) matches Some((o, c)) ==> exists|k: int|
            i <= k && k + 1 < cols.len() && o == cols[k] && c == #[trigger] cols[k + 1],
    decreases cols.len() - i,
{
    if 0 <= i && i + 1 < cols.len() && !(cur <= cols[i + 1]) {
        lemma_pick_pair(cols, cur, i + 2);
    }
}

/// `n"`/`a"` (and `'`, `` ` ``): the quoted span on the cursor's line.
/// Quotes do not nest, so they pair left to right; the pair that encloses
/// the cursor, or the next one after it, is taken. The around form adds a
/// following blank, else a preceding one.
pub open spec fn spec_quote_object(t: Seq<char>, cursor: Cursor, q: char, around: bool) -> Option<Range> {
    let lc = spec_line_content(t, cursor.line as nat);
    let base = line_start(t, cursor.line as nat);
    let cols = quote_cols(lc, q, lc.len() as int);
    if cols.len() < 2 {
        None
    } else {
        match pick_pair(cols, cursor.col as int, 0) {
            None => None,
            Some((o, c)) => if !around {
                Some(range(base + o + 1, base + c, false))
            } else if c + 1 < lc.len() && is_blank_char(lc[c + 1]) {
                Some(range(base + o, base + c + 2, false))
            } else if o > 0 && is_blank_char(lc[o - 1]) {
                Some(range(base + o - 1, base + c + 1, false))
            } else {
                Some(range(base + o, base + c + 1, false))
            },
        }
    }
}

proof fn lemma_quote_cols_count(lc: Seq<char>, q: char, n: int)
    requires
        0 <= n <= lc.len(),
    ensures
        quote_cols(lc, q, n).len() == crate::editing::motion::count_in(lc, q, 0, n),
        forall|k: int|
            0 <= k < quote_cols(lc, q, n).len() ==> lc[#[trigger] quote_cols(lc, q, n)[k]] == q
                && crate::editing::motion::count_in(lc, q, 0, quote_cols(lc, q, n)[k]) == k,
    decreases n,
{
    if n > 0 {
        lemma_quote_cols_count(lc, q, n - 1);
        lemma_quote_cols(lc, q, n - 1);
        crate::editing::motion::lemma_count_in_right(lc, q, 0, n);
    }
}

/// Law of `n"`/`a"` and the other quotes: the inner object lies between two
/// quote chars on the cursor's line with no quote between them, the
/// closing one at or after the cursor, and the opening one preceded by an
/// even number of quotes on the line: quotes pair up left to right.
pub proof fn lemma_quote_object_law(t: Seq<char>, cursor: Cursor, q: char)
    requires
        cursor.line < line_count(t),
        t.len() <= usize::MAX,
    ensures
        spec_quote_object(t, cursor, q, false) matches Some(r) ==> {
            let lc = spec_line_content(t, cursor.line as nat);
            let base = line_start(t, cursor.line as nat);
            let o = r.start - base - 1;
            let c = r.end - base;
            &&& 0 <= o < c < lc.len()
            &&& lc[o] == q && lc[c] == q
            &&& cursor.col <= c
            &&& crate::editing::motion::count_in(lc, q, 0, o) % 2 == 0
            &&& forall|j: int| o < j < c ==> #[trigger] lc[j] != q
        },
{
    let lc = spec_line_content(t, cursor.line as nat);
    let base = line_start(t, cursor.line as nat);
    let n = lc.len() as int;
    let cols = quote_cols(lc, q, n);
    lemma_quote_cols(lc, q, n);
    lemma_quote_cols_count(lc, q, n);
    lemma_line_start(t, cursor.line as nat, (cursor.line + 1) as nat);
    lemma_line_chars_len(t, cursor.line as nat);
    crate::editing::rope::lemma_line_start_len(t, cursor.line as nat);
    if cols.len() >= 2 {
        lemma_pick_pair_even(cols, cursor.col as int, 0);
        if pick_pair(cols, cursor.col as int, 0) is Some {
            let k = choose|k: int| 0 <= k && k + 1 < cols.len() && k % 2 == 0 && pick_pair(cols, cursor.col as int, 0) == Some((cols[k], cols[k + 1])) && cursor.col <= #[trigger] cols[k + 1];
            let o = cols[k];
            let c = cols[k + 1];
            assert(crate::editing::motion::count_in(lc, q, 0, c) == k + 1);
            crate::editing::motion::lemma_count_in_split(lc, q, 0, o + 1, c);
            crate::editing::motion::lemma_count_in_split(lc, q, 0, o, o + 1);
            assert(crate::editing::motion::count_in(lc, q, o, o + 1) == 1) by {
                reveal_with_fuel(crate::editing::motion::count_in, 2);
            }
            crate::editing::motion::lemma_count_in_zero(lc, q, o + 1, c);
            assert(0 <= base && base + n <= t.len());
            let r = range(base + o + 1, base + c, false);
            assert(r.start == base + o + 1 && r.end == base + c);
        }
    }
}

proof fn lemma_pick_pair_even(cols: Seq<int>, cur: int, i: int)
    requires
        0 <= i,
        i % 2 == 0,
    ensures
        pick_pair(cols, cur, i) is Some ==> exists|k: int|
            i <= k && k + 1 < cols.len() && k % 2 == 0 && pick_pair(cols, cur, i) == Some((cols[k], cols[k + 1]))
                && cur <= #[trigger] cols[k + 1],
    decreases cols.len() - i,
{
    if 0 <= i && i + 1 < cols.len() && !(cur <= cols[i + 1]) {
        lemma_pick_pair_even(cols, cur, i + 2);
    }
}

fn quote_object(rope: &Rope, cursor: Cursor, q: char, around: bool) -> (r: Option<Range>)
    requires
        cursor.line < line_count(rope_text(*rope)),
    ensures
        r == spec_quote_object(rope_text(*rope), cursor, q, around),
{
    let ghost t = rope_text(*rope);
    let len = rope_len_chars(rope);
    let base = rope_line_to_char(rope, cursor.line);
    let line = line_content(rope, cursor.line);
    let chars = chars_of(line.as_str());
    let ghost lc = chars@;
    proof {
        lemma_line_start(t, cursor.line as nat, (cursor.line + 1) as nat);
        lemma_line_chars_len(t, cursor.line as nat);
        assert(line_start(t, cursor.line as nat) + lc.len() <= t.len()) by {
            crate::editing::rope::lemma_line_start_len(t, cursor.line as nat);
        }
    }
    let mut cols: Vec<usize> = Vec::new();
    let mut k: usize = 0;
    while k < chars.len()
        invariant
            k <= chars.len(),
            chars@ == lc,
            cols@.len() == quote_cols(lc, q, k as int).len(),
            forall|m: int| 0 <= m < cols@.len() ==> cols@[m] as int == #[trigger] quote_cols(lc, q, k as int)[m],
        decreases chars.len() - k,
    {
        if chars[k] == q {
            cols.push(k);
        }
        k = k + 1;
    }
    let ghost qc = quote_cols(lc, q, lc.len() as int);
    proof {
        lemma_quote_cols(lc, q, lc.len() as int);
    }
    if cols.len() < 2 {
        return None;
    }
    let cur = cursor.col;
    let mut i: usize = 0;
    let mut found = false;
    while i < cols.len() && i + 1 < cols.len()
        invariant_except_break
            !found,
        invariant
            cols@.len() == qc.len(),
            forall|m: int| 0 <= m < cols@.len() ==> cols@[m] as int == #[trigger] qc[m],
            i <= cols.len() + 1,
            pick_pair(qc, cur as int, i as int) == pick_pair(qc, cur as int, 0),
        ensures
            found ==> i + 1 < cols.len() && cur <= cols@[i + 1],
            found ==> pick_pair(qc, cur as int, 0) == Some((qc[i as int], qc[i + 1])),
            !found ==> pick_pair(qc, cur as int, 0) is None,
        decreases cols.len() + 2 - i,
    {
        if cur <= cols[i + 1] {
            found = true;
            break;
        }
        i = i + 2;
    }
    if !found {
        return None;
    }
    let o = cols[i];
    let c = cols[i + 1];
    assert(qc[i as int] < qc[i + 1]);
    assert(0 <= qc[i + 1] < lc.len());
    assert(base + lc.len() <= len);
    if around {
        let end = c + 1;
        if end < chars.len() && (chars[end] == ' ' || chars[end] == '\t') {
            return Some(Range { start: base + o, end: base + end + 1, linewise: false });
        }
        let mut start = o;
        if start > 0 && (chars[start - 1] == ' ' || chars[start - 1] == '\t') {
            start = start - 1;
        }
        Some(Range { start: base + start, end: base + c + 1, linewise: false })
    } else {
        Some(Range { start: base + o + 1, end: base + c, linewise: false })
    }
}

// ----------------------------------------------------------------------
// dispatch
// ----------------------------------------------------------------------

/// The cursor as a char index, its column clamped to the line's content.
pub open spec fn cursor_abs(t: Seq<char>, cursor: Cursor) -> int {
    let ll = spec_line_content(t, cursor.line as nat).len();
    line_start(t, cursor.line as nat) + if cursor.col < ll {
        cursor.col as int
    } else {
        ll as int
    }
}

/// The object of a kind at the cursor; counts below one count as one.
pub open spec fn spec_resolve(t: Seq<char>, cursor: Cursor, kind: ObjKind, around: bool, count: nat) -> Option<Range> {
    let n = if count >= 1 {
        count
    } else {
        1
    };
    match kind {
        ObjKind::Word { big } => spec_word_object(t, cursor_abs(t, cursor), big, around, n),
        ObjKind::Paragraph => spec_paragraph_object(t, cursor.line as int, around, n),
        ObjKind::Pair(open, close) => spec_pair_object(t, cursor_abs(t, cursor), open, close, around),
        ObjKind::Quote(q) => spec_quote_object(t, cursor, q, around),
    }
}

/// The object of `kind` at the cursor (whose line must exist).
pub fn resolve(rope: &Rope, cursor: Cursor, kind: ObjKind, around: bool, count: usize) -> (r: Option<Range>)
    requires
        cursor.line < line_count(rope_text(*rope)),
    ensures
        r == spec_resolve(rope_text(*rope), cursor, kind, around, count as nat),
        r matches Some(g) ==> g.start <= g.end <= rope_text(*rope).len(),
{
    let ghost t = rope_text(*rope);
    let len = rope_len_chars(rope);
    let base = rope_line_to_char(rope, cursor.line);
    let ll = line_len(rope, cursor.line);
    proof {
        crate::editing::rope::lemma_line_start_len(t, cursor.line as nat);
        assert(base + ll <= len);
    }
    let abs = base + if cursor.col < ll {
        cursor.col
    } else {
        ll
    };
    let n = if count >= 1 {
        count
    } else {
        1
    };
    let r = match kind {
        ObjKind::Word { big } => word_object(rope, abs, big, around, n),
        ObjKind::Paragraph => paragraph_object(rope, cursor.line, around, n),
        ObjKind::Pair(open, close) => pair_object(rope, abs, open, close, around),
        ObjKind::Quote(q) => quote_object(rope, cursor, q, around),
    };
    proof {
        lemma_resolve_range(t, cursor, kind, around, count as nat);
    }
    r
}

/// Every resolved object is a valid char range of the text.
pub proof fn lemma_resolve_range(t: Seq<char>, cursor: Cursor, kind: ObjKind, around: bool, count: nat)
    requires
        cursor.line < line_count(t),
        t.len() <= usize::MAX,
    ensures
        spec_resolve(t, cursor, kind, around, count) matches Some(g) ==> g.start <= g.end <= t.len(),
{
    let n = if count >= 1 {
        count
    } else {
        1
    };
    crate::editing::rope::lemma_line_start_len(t, cursor.line as nat);
    let abs = cursor_abs(t, cursor);
    match kind {
        ObjKind::Word { big } => {
            if t.len() > 0 {
                let a = if abs < t.len() - 1 {
                    abs
                } else {
                    t.len() - 1
                };
                let cl = spec_class(t[a], big);
                lemma_run_start(t, a, cl, big);
                lemma_runs_end(t, a, n, big);
                let end = runs_end(t, a, n, big) + 1;
                lemma_blank_end(t, end);
                lemma_blank_start(t, run_start(t, a, cl, big));
            }
        },
        ObjKind::Paragraph => {
            let last = spec_text_lines(t) - 1;
            crate::editing::lines::lemma_text_lines_bound(t);
            let on_blank = blank_line(t, cursor.line as int);
            let l1 = block_start(t, cursor.line as int, on_blank);
            lemma_block_start(t, cursor.line as int, on_blank);
            let l2 = blocks_end(t, cursor.line as int, n, last);
            lemma_blocks_end(t, cursor.line as int, n, last);
            let a2 = block_end(t, l2, !blank_line(t, l2), last);
            lemma_block_end(t, l2, !blank_line(t, l2), last);
            lemma_block_start(t, l1, !on_blank);
            let (f1, f2) = if around {
                if a2 > l2 {
                    (l1, a2)
                } else {
                    (block_start(t, l1, !on_blank), l2)
                }
            } else {
                (l1, l2)
            };
            assert(f1 <= cursor.line <= f2);
            lemma_lines_range(t, f1, f2);
        },
        ObjKind::Pair(open, close) => {
            if t.len() > 0 {
                let a = if abs < t.len() - 1 {
                    abs
                } else {
                    t.len() - 1
                };
                lemma_open_before(t, a, a, 0, open, close);
                let o = if t[a] == open {
                    a
                } else {
                    match open_before(t, a, a, 0, open, close) {
                        Some(p) => p,
                        None => 0,
                    }
                };
                lemma_close_after(t, o + 1, 0, open, close);
            }
        },
        ObjKind::Quote(q) => {
            let lc = spec_line_content(t, cursor.line as nat);
            let cols = quote_cols(lc, q, lc.len() as int);
            lemma_quote_cols(lc, q, lc.len() as int);
            lemma_pick_pair(cols, cursor.col as int, 0);
            match pick_pair(cols, cursor.col as int, 0) {
                Some((o, c)) => {
                    let k = choose|k: int|
                        0 <= k && k + 1 < cols.len() && o == cols[k] && c == #[trigger] cols[k + 1];
                    assert(cols[k] < cols[k + 1]);
                },
                None => {},
            }
        },
    }
}

/// Lines `l1..=l2` (with `l1` an existing line) span a valid char range.
proof fn lemma_lines_range(t: Seq<char>, l1: int, l2: int)
    requires
        0 <= l1 <= l2,
        l1 < line_count(t),
    ensures
        0 <= line_start(t, l1 as nat) <= lines_end(t, l2) <= t.len(),
{
    crate::editing::rope::lemma_line_start_len(t, l1 as nat);
    if l2 + 1 < line_count(t) {
        lemma_line_start(t, l1 as nat, (l2 + 1) as nat);
        crate::editing::rope::lemma_line_start_len(t, (l2 + 1) as nat);
    }
}

} // verus!
