//! Cursor motions: the motion vocabulary and how each resolves.

use vstd::prelude::*;

use ropey::Rope;

use crate::editing::buffer::Cursor;
use crate::editing::commands::FindKind;
use crate::editing::lines::{
    first_non_blank, line_content, line_len, max_normal_col, spec_first_non_blank,
    spec_line_content, spec_max_normal_col, spec_text_lines, text_lines, lemma_text_lines_bound,
};
use crate::editing::rope::{
    breaks_upto, line_count, line_start, rope_char, rope_char_to_line, rope_len_chars,
    rope_line_to_char, rope_text,
};
use crate::editing::text::{
    cell_at_col, char_class, col_at_cell, end_cell, end_col, first_at_cell, first_at_col,
    gr_index_at_col, layout_fits, line_graphemes, snap_to_grapheme, spec_char_class,
    spec_line_graphemes, CharClass, Gr,
};

verus! {

#[derive(Debug, Clone, Copy, PartialEq, Eq, Structural)]
pub enum Motion {
    Left,
    Right,
    Up,
    Down,
    LineStart,
    FirstNonBlank,
    LineEnd,
    WordForward {
        big: bool,
    },
    WordBack {
        big: bool,
    },
    WordEnd {
        big: bool,
    },
    /// `gg`
    GotoFirst,
    /// `G`
    GotoLast,
    /// `}`
    ParaForward,
    /// `{`
    ParaBack,
    Find {
        kind: FindKind,
        ch: char,
    },
    /// `;`
    RepeatFind,
    /// `,`
    RepeatFindRev,
}

#[derive(Debug, Clone, Copy, PartialEq, Eq, Structural)]
pub enum MotionKind {
    Linewise,
    Exclusive,
    Inclusive,
}

pub struct MotionOutcome {
    pub cursor: Cursor,
    pub kind: MotionKind,
    /// `Some` keeps/sets the sticky goal column; `None` resets it.
    pub new_goal: Option<usize>,
    pub new_last_find: Option<(FindKind, char)>,
}


/// The word class of the char at `i`.
pub open spec fn cls(t: Seq<char>, i: int, big: bool) -> CharClass {
    spec_char_class(t[i], big)
}

/// Past the run of class `cl` starting at `i`, stopping at a newline.
pub open spec fn skip_same(t: Seq<char>, i: int, cl: CharClass, big: bool) -> int
    decreases t.len() - i,
{
    if 0 <= i < t.len() && t[i] != '\n' && cls(t, i, big) == cl {
        skip_same(t, i + 1, cl, big)
    } else {
        i
    }
}

/// Past the blanks starting at `i`, stopping on an empty line (the char
/// after a newline that is followed by another newline).
pub open spec fn skip_blank_lines(t: Seq<char>, i: int, big: bool) -> int
    decreases t.len() - i,
{
    if 0 <= i < t.len() && cls(t, i, big) == CharClass::Blank {
        if t[i] == '\n' && i + 1 < t.len() && t[i + 1] == '\n' {
            i + 1
        } else {
            skip_blank_lines(t, i + 1, big)
        }
    } else {
        i
    }
}

/// `w`/`W`: the start of the next word (the text's length at the end).
pub open spec fn spec_next_word_start(t: Seq<char>, abs: int, big: bool) -> int {
    if t.len() == 0 || abs >= t.len() {
        t.len() as int
    } else {
        let st = cls(t, abs, big);
        let i = if st != CharClass::Blank {
            skip_same(t, abs + 1, st, big)
        } else {
            abs + 1
        };
        skip_blank_lines(t, i, big)
    }
}

proof fn lemma_skip_same(t: Seq<char>, i: int, cl: CharClass, big: bool)
    requires
        0 <= i <= t.len(),
    ensures
        i <= skip_same(t, i, cl, big) <= t.len(),
    decreases t.len() - i,
{
    if i < t.len() && t[i] != '\n' && cls(t, i, big) == cl {
        lemma_skip_same(t, i + 1, cl, big);
    }
}

proof fn lemma_skip_blank_lines(t: Seq<char>, i: int, big: bool)
    requires
        0 <= i <= t.len(),
    ensures
        i <= skip_blank_lines(t, i, big) <= t.len(),
    decreases t.len() - i,
{
    if i < t.len() && cls(t, i, big) == CharClass::Blank && !(t[i] == '\n' && i + 1 < t.len()
        && t[i + 1] == '\n') {
        lemma_skip_blank_lines(t, i + 1, big);
    }
}

proof fn lemma_skip_same_props(t: Seq<char>, i: int, cl: CharClass, big: bool)
    requires
        0 <= i <= t.len(),
    ensures
        i <= skip_same(t, i, cl, big) <= t.len(),
        forall|k: int| i <= k < skip_same(t, i, cl, big) ==> #[trigger] cls(t, k, big) == cl && t[k] != '\n',
        skip_same(t, i, cl, big) < t.len() ==> t[skip_same(t, i, cl, big)] == '\n' || cls(
            t,
            skip_same(t, i, cl, big),
            big,
        ) != cl,
    decreases t.len() - i,
{
    if i < t.len() && t[i] != '\n' && cls(t, i, big) == cl {
        lemma_skip_same_props(t, i + 1, cl, big);
    }
}

proof fn lemma_skip_blank_props(t: Seq<char>, i: int, big: bool)
    requires
        0 <= i <= t.len(),
    ensures
        i <= skip_blank_lines(t, i, big) <= t.len(),
        forall|k: int| i <= k < skip_blank_lines(t, i, big) ==> #[trigger] cls(t, k, big) == CharClass::Blank,
        skip_blank_lines(t, i, big) < t.len() ==> cls(t, skip_blank_lines(t, i, big), big)
            != CharClass::Blank || (skip_blank_lines(t, i, big) - 1 >= i && t[skip_blank_lines(t, i, big)
            - 1] == '\n' && t[skip_blank_lines(t, i, big)] == '\n'),
    decreases t.len() - i,
{
    if i < t.len() && cls(t, i, big) == CharClass::Blank && !(t[i] == '\n' && i + 1 < t.len()
        && t[i + 1] == '\n') {
        lemma_skip_blank_props(t, i + 1, big);
    }
}

/// Chars `abs..=k` all share the class of the char at `abs`.
pub open spec fn in_first_run(t: Seq<char>, abs: int, k: int, big: bool) -> bool {
    forall|j: int| abs <= j <= k ==> #[trigger] cls(t, j, big) == cls(t, abs, big)
}

/// Law of `w`/`W`: from a char of the text, the next word start lies
/// after it; it is a non-blank char, or an empty line (a `\n` right after
/// a `\n`), or the end of the text; every non-blank char passed over
/// belongs to the run of the word the motion started on, and the char
/// landed on is outside that run.
pub proof fn lemma_next_word_start_law(t: Seq<char>, abs: int, big: bool)
    requires
        0 <= abs < t.len(),
    ensures
        abs < spec_next_word_start(t, abs, big) <= t.len(),
        spec_next_word_start(t, abs, big) < t.len() ==> !crate::chars::spec_is_whitespace(t[spec_next_word_start(t, abs, big)])
            || (t[spec_next_word_start(t, abs, big) - 1] == '\n' && t[spec_next_word_start(t, abs, big)] == '\n'),
        forall|k: int|
            abs < k < spec_next_word_start(t, abs, big) && !crate::chars::spec_is_whitespace(#[trigger] t[k]) ==> in_first_run(
                t,
                abs,
                k,
                big,
            ),
        spec_next_word_start(t, abs, big) < t.len() && !crate::chars::spec_is_whitespace(t[spec_next_word_start(t, abs, big)])
            ==> !in_first_run(t, abs, spec_next_word_start(t, abs, big), big),
{
    let st = cls(t, abs, big);
    let i = if st != CharClass::Blank {
        skip_same(t, abs + 1, st, big)
    } else {
        abs + 1
    };
    if st != CharClass::Blank {
        lemma_skip_same_props(t, abs + 1, st, big);
    }
    lemma_skip_blank_props(t, i, big);
    let r = spec_next_word_start(t, abs, big);
    assert(r == skip_blank_lines(t, i, big));
    assert forall|k: int| abs < k < r && !crate::chars::spec_is_whitespace(#[trigger] t[k]) implies in_first_run(t, abs, k, big) by {
        if k >= i {
            assert(cls(t, k, big) == CharClass::Blank);
        } else {
            assert forall|j: int| abs <= j <= k implies #[trigger] cls(t, j, big) == cls(t, abs, big) by {
                if j > abs {
                    assert(cls(t, j, big) == st);
                }
            };
        }
    };
    if r < t.len() && !crate::chars::spec_is_whitespace(t[r]) {
        if st == CharClass::Blank {
            assert(cls(t, r, big) != cls(t, abs, big));
        } else if r == i {
            assert(t[i] == '\n' || cls(t, i, big) != st);
            assert(cls(t, i, big) != st);
        } else {
            assert(cls(t, i, big) == CharClass::Blank);
            assert(cls(t, i, big) != cls(t, abs, big));
        }
    }
}

fn cls_at(rope: &Rope, i: usize, big: bool) -> (c: CharClass)
    requires
        i < rope_text(*rope).len(),
    ensures
        c == cls(rope_text(*rope), i as int, big),
{
    char_class(rope_char(rope, i), big)
}

/// The start of the next word after `abs`.
pub fn next_word_start(rope: &Rope, abs: usize, big: bool) -> (r: usize)
    ensures
        r == spec_next_word_start(rope_text(*rope), abs as int, big),
        r <= rope_text(*rope).len(),
{
    let ghost t = rope_text(*rope);
    let len = rope_len_chars(rope);
    if len == 0 || abs >= len {
        return len;
    }
    let mut i = abs;
    let start = cls_at(rope, i, big);
    i += 1;
    if start != CharClass::Blank {
        proof {
            lemma_skip_same(t, i as int, start, big);
        }
        while i < len && rope_char(rope, i) != '\n' && cls_at(rope, i, big) == start
            invariant
                abs < i <= len,
                len == t.len(),
                t == rope_text(*rope),
                skip_same(t, abs + 1, start, big) == skip_same(t, i as int, start, big),
            decreases len - i,
        {
            i += 1;
        }
    }
    proof {
        lemma_skip_blank_lines(t, i as int, big);
    }
    let ghost i0 = i;
    while i < len && cls_at(rope, i, big) == CharClass::Blank
        invariant
            abs < i <= len,
            len == t.len(),
            t == rope_text(*rope),
            spec_next_word_start(t, abs as int, big) == skip_blank_lines(t, i as int, big),
        decreases len - i,
    {
        if rope_char(rope, i) == '\n' && i + 1 < len && rope_char(rope, i + 1) == '\n' {
            return i + 1;
        }
        i += 1;
    }
    i
}

/// Past the blanks starting at `i`.
pub open spec fn skip_blanks(t: Seq<char>, i: int, big: bool) -> int
    decreases t.len() - i,
{
    if 0 <= i < t.len() && cls(t, i, big) == CharClass::Blank {
        skip_blanks(t, i + 1, big)
    } else {
        i
    }
}

/// The last index of the run of class `cl` that contains `i`.
pub open spec fn run_last(t: Seq<char>, i: int, cl: CharClass, big: bool) -> int
    decreases t.len() - i,
{
    if 0 <= i && i + 1 < t.len() && cls(t, i + 1, big) == cl {
        run_last(t, i + 1, cl, big)
    } else {
        i
    }
}

/// `e`/`E`: the end of the next word after `abs` (the last char at the
/// end, 0 in an empty text).
pub open spec fn spec_word_end(t: Seq<char>, abs: int, big: bool) -> int {
    if t.len() == 0 {
        0
    } else {
        let i = skip_blanks(t, abs + 1, big);
        if i >= t.len() {
            t.len() - 1
        } else {
            run_last(t, i, cls(t, i, big), big)
        }
    }
}

proof fn lemma_skip_blanks(t: Seq<char>, i: int, big: bool)
    requires
        0 <= i,
    ensures
        i <= skip_blanks(t, i, big),
        i <= t.len() ==> skip_blanks(t, i, big) <= t.len(),
        skip_blanks(t, i, big) < t.len() ==> cls(t, skip_blanks(t, i, big), big) != CharClass::Blank,
    decreases t.len() - i,
{
    if i < t.len() && cls(t, i, big) == CharClass::Blank {
        lemma_skip_blanks(t, i + 1, big);
    }
}

proof fn lemma_run_last(t: Seq<char>, i: int, cl: CharClass, big: bool)
    requires
        0 <= i < t.len(),
    ensures
        i <= run_last(t, i, cl, big) < t.len(),
    decreases t.len() - i,
{
    if i + 1 < t.len() && cls(t, i + 1, big) == cl {
        lemma_run_last(t, i + 1, cl, big);
    }
}

proof fn lemma_skip_blanks_props(t: Seq<char>, i: int, big: bool)
    requires
        0 <= i <= t.len(),
    ensures
        i <= skip_blanks(t, i, big) <= t.len(),
        forall|k: int| i <= k < skip_blanks(t, i, big) ==> #[trigger] cls(t, k, big) == CharClass::Blank,
        skip_blanks(t, i, big) < t.len() ==> cls(t, skip_blanks(t, i, big), big) != CharClass::Blank,
    decreases t.len() - i,
{
    if i < t.len() && cls(t, i, big) == CharClass::Blank {
        lemma_skip_blanks_props(t, i + 1, big);
    }
}

proof fn lemma_run_last_props(t: Seq<char>, i: int, cl: CharClass, big: bool)
    requires
        0 <= i < t.len(),
    ensures
        i <= run_last(t, i, cl, big) < t.len(),
        forall|k: int| i < k <= run_last(t, i, cl, big) ==> #[trigger] cls(t, k, big) == cl,
        run_last(t, i, cl, big) + 1 < t.len() ==> cls(t, run_last(t, i, cl, big) + 1, big) != cl,
    decreases t.len() - i,
{
    if i + 1 < t.len() && cls(t, i + 1, big) == cl {
        lemma_run_last_props(t, i + 1, cl, big);
    }
}

/// Law of `e`/`E`: in a non-empty text, the word end lies on the text;
/// when some non-blank char follows the cursor it lies after the cursor on
/// a non-blank char that ends its run, everything passed over being blanks
/// and then that one run; with only blanks after the cursor it is the
/// last char.
pub proof fn lemma_word_end_law(t: Seq<char>, abs: int, big: bool)
    requires
        0 <= abs < t.len(),
    ensures
        0 <= spec_word_end(t, abs, big) < t.len(),
        (exists|k: int| abs < k < t.len() && !crate::chars::spec_is_whitespace(#[trigger] t[k])) ==> {
            let r = spec_word_end(t, abs, big);
            &&& abs < r
            &&& !crate::chars::spec_is_whitespace(t[r])
            &&& r + 1 < t.len() ==> cls(t, r + 1, big) != cls(t, r, big)
            &&& forall|k: int, j: int|
                abs < k <= j <= r && !crate::chars::spec_is_whitespace(#[trigger] t[k]) ==> #[trigger] cls(
                    t,
                    j,
                    big,
                ) == cls(t, r, big)
        },
        (forall|k: int| abs < k < t.len() ==> crate::chars::spec_is_whitespace(#[trigger] t[k]))
            ==> spec_word_end(t, abs, big) == t.len() - 1,
{
    let i = skip_blanks(t, abs + 1, big);
    lemma_skip_blanks_props(t, abs + 1, big);
    if i < t.len() {
        let cl = cls(t, i, big);
        lemma_run_last_props(t, i, cl, big);
        let r = run_last(t, i, cl, big);
        assert forall|k: int, j: int|
            abs < k <= j <= r && !crate::chars::spec_is_whitespace(#[trigger] t[k]) implies #[trigger] cls(
            t,
            j,
            big,
        ) == cls(t, r, big) by {
            if k < i {
                assert(cls(t, k, big) == CharClass::Blank);
            }
            if j > i {
                assert(cls(t, j, big) == cl);
            }
            if r > i {
                assert(cls(t, r, big) == cl);
            }
        };
        if r > i {
            assert(cls(t, r, big) == cl);
        }
        if forall|k: int| abs < k < t.len() ==> crate::chars::spec_is_whitespace(#[trigger] t[k]) {
            assert(crate::chars::spec_is_whitespace(t[i]));
        }
    } else {
        if exists|k: int| abs < k < t.len() && !crate::chars::spec_is_whitespace(#[trigger] t[k]) {
            let k = choose|k: int| abs < k < t.len() && !crate::chars::spec_is_whitespace(#[trigger] t[k]);
            assert(cls(t, k, big) == CharClass::Blank);
        }
    }
}

/// The end of the next word after `abs`.
pub fn word_end(rope: &Rope, abs: usize, big: bool) -> (r: usize)
    requires
        abs < usize::MAX,
    ensures
        r == spec_word_end(rope_text(*rope), abs as int, big),
        rope_text(*rope).len() > 0 ==> r < rope_text(*rope).len(),
{
    let ghost t = rope_text(*rope);
    let len = rope_len_chars(rope);
    if len == 0 {
        return 0;
    }
    let mut i = abs + 1;
    proof {
        lemma_skip_blanks(t, i as int, big);
    }
    while i < len && cls_at(rope, i, big) == CharClass::Blank
        invariant
            abs < i,
            len == t.len(),
            t == rope_text(*rope),
            skip_blanks(t, abs + 1, big) == skip_blanks(t, i as int, big),
        decreases len - i,
    {
        i += 1;
    }
    if i >= len {
        return len - 1;
    }
    let cl = cls_at(rope, i, big);
    proof {
        lemma_run_last(t, i as int, cl, big);
    }
    let ghost i0 = i;
    while i + 1 < len && cls_at(rope, i + 1, big) == cl
        invariant
            i < len,
            len == t.len(),
            t == rope_text(*rope),
            run_last(t, i0 as int, cl, big) == run_last(t, i as int, cl, big),
        decreases len - i,
    {
        i += 1;
    }
    i
}

/// Back over blanks from `i` (classes taken small), stopping on an empty
/// line: `Ok(j)` stops there, `Err(j)` reached `j` (0, or a non-blank).
pub open spec fn back_blanks(t: Seq<char>, i: int) -> Result<int, int>
    decreases i,
{
    if i > 0 && cls(t, i, false) == CharClass::Blank {
        if t[i] == '\n' && t[i - 1] == '\n' {
            Ok(i)
        } else {
            back_blanks(t, i - 1)
        }
    } else {
        Err(i)
    }
}

/// The first index of the run of class `cl` that ends at `i`.
pub open spec fn run_first(t: Seq<char>, i: int, cl: CharClass, big: bool) -> int
    decreases i,
{
    if i > 0 && cls(t, i - 1, big) == cl {
        run_first(t, i - 1, cl, big)
    } else {
        i
    }
}

/// `b`/`B`: the start of the previous word before `abs`.
pub open spec fn spec_prev_word_start(t: Seq<char>, abs: int, big: bool) -> int {
    if abs == 0 {
        0
    } else {
        match back_blanks(t, abs - 1) {
            Ok(j) => j,
            Err(i) => if cls(t, i, big) == CharClass::Blank {
                i
            } else {
                run_first(t, i, cls(t, i, big), big)
            },
        }
    }
}

proof fn lemma_back_blanks(t: Seq<char>, i: int)
    requires
        0 <= i,
    ensures
        back_blanks(t, i) matches Ok(j) ==> 0 < j <= i,
        back_blanks(t, i) matches Err(j) ==> 0 <= j <= i,
    decreases i,
{
    if i > 0 && cls(t, i, false) == CharClass::Blank && !(t[i] == '\n' && t[i - 1] == '\n') {
        lemma_back_blanks(t, i - 1);
    }
}

proof fn lemma_run_first(t: Seq<char>, i: int, cl: CharClass, big: bool)
    requires
        0 <= i,
    ensures
        0 <= run_first(t, i, cl, big) <= i,
    decreases i,
{
    if i > 0 && cls(t, i - 1, big) == cl {
        lemma_run_first(t, i - 1, cl, big);
    }
}

/// Two newlines in a row end at `k`: an empty line starts there.
pub open spec fn empty_line_at(t: Seq<char>, k: int) -> bool {
    0 < k < t.len() && t[k] == '\n' && t[k - 1] == '\n'
}

proof fn lemma_back_blanks_props(t: Seq<char>, i: int)
    requires
        0 <= i < t.len(),
    ensures
        back_blanks(t, i) matches Ok(j) ==> 0 < j <= i && empty_line_at(t, j) && forall|k: int|
            j < k <= i ==> #[trigger] cls(t, k, false) == CharClass::Blank && !empty_line_at(t, k),
        back_blanks(t, i) matches Err(j) ==> 0 <= j <= i && (j > 0 ==> cls(t, j, false) != CharClass::Blank)
            && forall|k: int| j < k <= i ==> #[trigger] cls(t, k, false) == CharClass::Blank && !empty_line_at(t, k),
    decreases i,
{
    if i > 0 && cls(t, i, false) == CharClass::Blank && !(t[i] == '\n' && t[i - 1] == '\n') {
        lemma_back_blanks_props(t, i - 1);
    }
}

proof fn lemma_run_first_props(t: Seq<char>, i: int, cl: CharClass, big: bool)
    requires
        0 <= i < t.len(),
    ensures
        0 <= run_first(t, i, cl, big) <= i,
        forall|k: int| run_first(t, i, cl, big) <= k < i ==> #[trigger] cls(t, k, big) == cl,
        run_first(t, i, cl, big) > 0 ==> cls(t, run_first(t, i, cl, big) - 1, big) != cl,
    decreases i,
{
    if i > 0 && cls(t, i - 1, big) == cl {
        lemma_run_first_props(t, i - 1, cl, big);
    }
}

/// Law of `b`/`B`: from a position after the text's start the previous
/// word start lies before it; it is the first char of a run of non-blanks,
/// or an empty line, or the text's start; from there up to the cursor come
/// that run and then only blanks, with no empty line passed over.
pub proof fn lemma_prev_word_start_law(t: Seq<char>, abs: int, big: bool)
    requires
        0 < abs <= t.len(),
    ensures
        ({
            let r = spec_prev_word_start(t, abs, big);
            &&& 0 <= r < abs
            &&& !crate::chars::spec_is_whitespace(t[r]) ==> r == 0 || cls(t, r - 1, big) != cls(t, r, big)
            &&& crate::chars::spec_is_whitespace(t[r]) ==> r == 0 || empty_line_at(t, r)
            &&& forall|k: int, j: int|
                r <= k <= j < abs && crate::chars::spec_is_whitespace(#[trigger] t[k])
                    ==> crate::chars::spec_is_whitespace(#[trigger] t[j])
            &&& forall|k: int|
                r <= k < abs && !crate::chars::spec_is_whitespace(#[trigger] t[k]) ==> cls(t, k, big) == cls(t, r, big)
            &&& forall|k: int| r < k < abs ==> !#[trigger] empty_line_at(t, k)
        }),
{
    lemma_back_blanks_props(t, abs - 1);
    let r = spec_prev_word_start(t, abs, big);
    match back_blanks(t, abs - 1) {
        Ok(j) => {
            assert(r == j);
            assert forall|k: int| r <= k < abs && !crate::chars::spec_is_whitespace(#[trigger] t[k]) implies cls(t, k, big)
                == cls(t, r, big) by {
                if k > j {
                    assert(cls(t, k, false) == CharClass::Blank);
                }
            };
            assert forall|k: int, j2: int|
                r <= k <= j2 < abs && crate::chars::spec_is_whitespace(#[trigger] t[k]) implies crate::chars::spec_is_whitespace(
                #[trigger] t[j2]) by {
                if j2 > j {
                    assert(cls(t, j2, false) == CharClass::Blank);
                }
            };
        },
        Err(i) => {
            if cls(t, i, big) == CharClass::Blank {
                assert(r == i);
                assert forall|k: int| r <= k < abs && !crate::chars::spec_is_whitespace(#[trigger] t[k]) implies cls(t, k, big)
                    == cls(t, r, big) by {
                    if k > i {
                        assert(cls(t, k, false) == CharClass::Blank);
                    }
                };
                assert forall|k: int, j2: int|
                    r <= k <= j2 < abs && crate::chars::spec_is_whitespace(#[trigger] t[k]) implies crate::chars::spec_is_whitespace(
                    #[trigger] t[j2]) by {
                    if j2 > i {
                        assert(cls(t, j2, false) == CharClass::Blank);
                    }
                };
                if i > 0 {
                    assert(cls(t, i, false) != CharClass::Blank);
                }
            } else {
                let cl = cls(t, i, big);
                lemma_run_first_props(t, i, cl, big);
                assert(r == run_first(t, i, cl, big));
                if r < i {
                    assert(cls(t, r, big) == cl);
                }
                assert forall|k: int| r <= k < abs && !crate::chars::spec_is_whitespace(#[trigger] t[k]) implies cls(t, k, big)
                    == cls(t, r, big) by {
                    if k > i {
                        assert(cls(t, k, false) == CharClass::Blank);
                    } else if k < i {
                        assert(cls(t, k, big) == cl);
                    }
                };
                assert forall|k: int, j2: int|
                    r <= k <= j2 < abs && crate::chars::spec_is_whitespace(#[trigger] t[k]) implies crate::chars::spec_is_whitespace(
                    #[trigger] t[j2]) by {
                    if k < i {
                        assert(cls(t, k, big) == cl);
                    }
                    if k <= i {
                        assert(cls(t, i, big) != CharClass::Blank);
                    }
                    if j2 > i {
                        assert(cls(t, j2, false) == CharClass::Blank);
                    }
                };
                assert forall|k: int| r < k < abs implies !#[trigger] empty_line_at(t, k) by {
                    if k <= i {
                        if k < i {
                            assert(cls(t, k, big) == cl);
                        }
                    }
                };
            }
        },
    }
}

/// The start of the previous word before `abs` (at most the length).
pub fn prev_word_start(rope: &Rope, abs: usize, big: bool) -> (r: usize)
    requires
        abs <= rope_text(*rope).len(),
    ensures
        r == spec_prev_word_start(rope_text(*rope), abs as int, big),
        r <= abs,
{
    let ghost t = rope_text(*rope);
    if abs == 0 {
        return 0;
    }
    let mut i = abs - 1;
    proof {
        lemma_back_blanks(t, i as int);
    }
    while i > 0 && cls_at(rope, i, false) == CharClass::Blank
        invariant
            i < abs <= t.len(),
            t == rope_text(*rope),
            back_blanks(t, abs - 1) == back_blanks(t, i as int),
        decreases i,
    {
        if rope_char(rope, i) == '\n' && rope_char(rope, i - 1) == '\n' {
            return i;
        }
        i -= 1;
    }
    if cls_at(rope, i, big) == CharClass::Blank {
        return i;
    }
    let cl = cls_at(rope, i, big);
    proof {
        lemma_run_first(t, i as int, cl, big);
    }
    let ghost i0 = i;
    while i > 0 && cls_at(rope, i - 1, big) == cl
        invariant
            i < abs <= t.len(),
            t == rope_text(*rope),
            run_first(t, i0 as int, cl, big) == run_first(t, i as int, cl, big),
        decreases i,
    {
        i -= 1;
    }
    i
}


/// The text fits the layout machinery: a tab stop to divide by, and room
/// for every cell count of its longest possible line.
pub open spec fn text_fits(t: Seq<char>, tabstop: nat) -> bool {
    tabstop > 0 && t.len() * (3 + tabstop) <= usize::MAX
}

/// Index of the last line as the user sees them.
pub open spec fn last_line(t: Seq<char>) -> int {
    spec_text_lines(t) - 1
}

/// Every line's content fits the layout machinery.
pub proof fn lemma_content_fits(t: Seq<char>, l: nat, tabstop: nat)
    requires
        text_fits(t, tabstop),
    ensures
        layout_fits(spec_line_content(t, l), tabstop),
        spec_line_content(t, l).len() <= t.len(),
{
    crate::editing::rope::lemma_line_chars_len(t, l);
    let c = spec_line_content(t, l);
    assert(c.len() * (3 + tabstop) <= t.len() * (3 + tabstop)) by (nonlinear_arith)
        requires
            c.len() <= t.len(),
    ;
}

/// Whether line `l` is empty.
pub open spec fn blank_line(t: Seq<char>, l: int) -> bool {
    spec_line_content(t, l as nat).len() == 0
}

/// Forward from `l` while lines are (or are not) blank, up to `last`.
pub open spec fn para_skip(t: Seq<char>, l: int, last: int, blank: bool) -> int
    decreases last - l,
{
    if l < last && blank_line(t, l) == blank {
        para_skip(t, l + 1, last, blank)
    } else {
        l
    }
}

/// Back from `l` while lines are (or are not) blank, down to 0.
pub open spec fn para_skip_back(t: Seq<char>, l: int, blank: bool) -> int
    decreases l,
{
    if l > 0 && blank_line(t, l) == blank {
        para_skip_back(t, l - 1, blank)
    } else {
        l
    }
}

/// `}`: past blank lines, then to the next blank line (or the last line).
pub open spec fn spec_para_forward(t: Seq<char>, l: int) -> int {
    let last = last_line(t);
    para_skip(t, para_skip(t, l, last, true), last, false)
}

/// `{`: back over blank lines, then to the previous blank line (or line 0).
pub open spec fn spec_para_back(t: Seq<char>, l: int) -> int {
    para_skip_back(t, para_skip_back(t, l, true), false)
}

proof fn lemma_para_skip(t: Seq<char>, l: int, last: int, blank: bool)
    requires
        l <= last,
    ensures
        l <= para_skip(t, l, last, blank) <= last,
    decreases last - l,
{
    if l < last && blank_line(t, l) == blank {
        lemma_para_skip(t, l + 1, last, blank);
    }
}

proof fn lemma_para_skip_back(t: Seq<char>, l: int, blank: bool)
    requires
        0 <= l,
    ensures
        0 <= para_skip_back(t, l, blank) <= l,
    decreases l,
{
    if l > 0 && blank_line(t, l) == blank {
        lemma_para_skip_back(t, l - 1, blank);
    }
}

proof fn lemma_para_skip_props(t: Seq<char>, l: int, last: int, blank: bool)
    requires
        l <= last,
    ensures
        forall|k: int| l <= k < para_skip(t, l, last, blank) ==> #[trigger] blank_line(t, k) == blank,
        para_skip(t, l, last, blank) < last ==> blank_line(t, para_skip(t, l, last, blank)) != blank,
    decreases last - l,
{
    if l < last && blank_line(t, l) == blank {
        lemma_para_skip_props(t, l + 1, last, blank);
    }
}

proof fn lemma_para_skip_back_props(t: Seq<char>, l: int, blank: bool)
    requires
        0 <= l,
    ensures
        forall|k: int| para_skip_back(t, l, blank) < k <= l ==> #[trigger] blank_line(t, k) == blank,
        para_skip_back(t, l, blank) > 0 ==> blank_line(t, para_skip_back(t, l, blank)) != blank,
    decreases l,
{
    if l > 0 && blank_line(t, l) == blank {
        lemma_para_skip_back_props(t, l - 1, blank);
    }
}

/// Law of `}`: from a line before the last it moves down, to the next
/// empty line or else the last line; the lines passed over are some empty
/// lines and then the paragraph's non-empty ones, never an empty line
/// after a non-empty one.
pub proof fn lemma_para_forward_law(t: Seq<char>, l: int)
    requires
        0 <= l <= last_line(t),
    ensures
        l <= spec_para_forward(t, l) <= last_line(t),
        l < last_line(t) ==> l < spec_para_forward(t, l),
        spec_para_forward(t, l) == last_line(t) || blank_line(t, spec_para_forward(t, l)),
        forall|j: int, k: int|
            l <= j < k < spec_para_forward(t, l) && !#[trigger] blank_line(t, j) ==> !#[trigger] blank_line(t, k),
{
    let last = last_line(t);
    let m = para_skip(t, l, last, true);
    lemma_para_skip(t, l, last, true);
    lemma_para_skip_props(t, l, last, true);
    lemma_para_skip(t, m, last, false);
    lemma_para_skip_props(t, m, last, false);
}

/// Law of `{`: from a line after the first it moves up, to the previous
/// empty line or else line 0; the lines passed over are some empty lines
/// and then the paragraph's non-empty ones.
pub proof fn lemma_para_back_law(t: Seq<char>, l: int)
    requires
        0 <= l,
    ensures
        0 <= spec_para_back(t, l) <= l,
        l > 0 ==> spec_para_back(t, l) < l,
        spec_para_back(t, l) == 0 || blank_line(t, spec_para_back(t, l)),
        forall|j: int, k: int|
            spec_para_back(t, l) < k < j <= l && !#[trigger] blank_line(t, j) ==> !#[trigger] blank_line(t, k),
{
    let m = para_skip_back(t, l, true);
    lemma_para_skip_back(t, l, true);
    lemma_para_skip_back_props(t, l, true);
    lemma_para_skip_back(t, m, false);
    lemma_para_skip_back_props(t, m, false);
}

fn is_blank_line(rope: &Rope, line: usize) -> (b: bool)
    requires
        line < line_count(rope_text(*rope)),
    ensures
        b == blank_line(rope_text(*rope), line as int),
{
    line_len(rope, line) == 0
}

fn para_forward(rope: &Rope, line: usize) -> (r: usize)
    requires
        line < line_count(rope_text(*rope)),
    ensures
        r == spec_para_forward(rope_text(*rope), line as int),
        line <= r,
        r < line_count(rope_text(*rope)),
{
    let ghost t = rope_text(*rope);
    proof {
        lemma_text_lines_bound(t);
    }
    let last = text_lines(rope) - 1;
    if line >= last {
        return line;
    }
    let mut l = line;
    proof {
        lemma_para_skip(t, l as int, last as int, true);
    }
    while l < last && is_blank_line(rope, l)
        invariant
            line <= l <= last,
            last == last_line(t),
            last < line_count(t),
            t == rope_text(*rope),
            para_skip(t, line as int, last as int, true) == para_skip(t, l as int, last as int, true),
        decreases last - l,
    {
        l += 1;
    }
    let ghost l0 = l;
    proof {
        lemma_para_skip(t, l as int, last as int, false);
    }
    while l < last && !is_blank_line(rope, l)
        invariant
            l0 <= l <= last,
            last == last_line(t),
            last < line_count(t),
            t == rope_text(*rope),
            para_skip(t, l0 as int, last as int, false) == para_skip(t, l as int, last as int, false),
        decreases last - l,
    {
        l += 1;
    }
    l
}

fn para_back(rope: &Rope, line: usize) -> (r: usize)
    requires
        line < line_count(rope_text(*rope)),
    ensures
        r == spec_para_back(rope_text(*rope), line as int),
        r <= line,
{
    let ghost t = rope_text(*rope);
    let mut l = line;
    proof {
        lemma_para_skip_back(t, l as int, true);
    }
    while l > 0 && is_blank_line(rope, l)
        invariant
            l <= line < line_count(t),
            t == rope_text(*rope),
            para_skip_back(t, line as int, true) == para_skip_back(t, l as int, true),
        decreases l,
    {
        l -= 1;
    }
    let ghost l0 = l;
    proof {
        lemma_para_skip_back(t, l as int, false);
    }
    while l > 0 && !is_blank_line(rope, l)
        invariant
            l <= l0 <= line < line_count(t),
            t == rope_text(*rope),
            para_skip_back(t, l0 as int, false) == para_skip_back(t, l as int, false),
        decreases l,
    {
        l -= 1;
    }
    l
}

/// Index of the `k`-th `ch` at or after `i`.
pub open spec fn nth_fwd(c: Seq<char>, ch: char, i: int, k: int) -> Option<int>
    decreases c.len() - i,
{
    if i < 0 || i >= c.len() || k < 1 {
        None
    } else if c[i] == ch {
        if k == 1 {
            Some(i)
        } else {
            nth_fwd(c, ch, i + 1, k - 1)
        }
    } else {
        nth_fwd(c, ch, i + 1, k)
    }
}

/// Index of the `k`-th `ch` before `j`, going backward.
pub open spec fn nth_back(c: Seq<char>, ch: char, j: int, k: int) -> Option<int>
    decreases j,
{
    if j <= 0 || j > c.len() || k < 1 {
        None
    } else if c[j - 1] == ch {
        if k == 1 {
            Some(j - 1)
        } else {
            nth_back(c, ch, j - 1, k - 1)
        }
    } else {
        nth_back(c, ch, j - 1, k)
    }
}

/// Whether a find goes forward.
pub open spec fn find_forward(kind: FindKind) -> bool {
    kind == FindKind::To || kind == FindKind::Till
}

/// Where a backward find starts scanning (exclusive).
pub open spec fn back_start(len: int, col: int, kind: FindKind, skip_adjacent: bool) -> int {
    let until = if skip_adjacent && kind == FindKind::TillBack {
        if col >= 1 {
            col - 1
        } else {
            0
        }
    } else {
        col
    };
    if until < len {
        until
    } else {
        len
    }
}

/// `f`/`F`/`t`/`T` on a line: the column of the `count`-th `ch` after (or
/// before) the cursor column, one short of it for `t`/`T`. `skip_adjacent`
/// makes a repeated `t`/`T` move past the char it stopped in front of.
pub open spec fn spec_find_in_line(
    c: Seq<char>,
    col: int,
    kind: FindKind,
    ch: char,
    count: int,
    skip_adjacent: bool,
) -> Option<int> {
    if find_forward(kind) {
        let from = if skip_adjacent && kind == FindKind::Till {
            col + 2
        } else {
            col + 1
        };
        match nth_fwd(c, ch, from, count) {
            Some(x) => Some(
                if kind == FindKind::Till {
                    x - 1
                } else {
                    x
                },
            ),
            None => None,
        }
    } else {
        match nth_back(c, ch, back_start(c.len() as int, col, kind, skip_adjacent), count) {
            Some(x) => Some(
                if kind == FindKind::TillBack {
                    x + 1
                } else {
                    x
                },
            ),
            None => None,
        }
    }
}

proof fn lemma_nth_fwd(c: Seq<char>, ch: char, i: int, k: int)
    requires
        0 <= i,
    ensures
        nth_fwd(c, ch, i, k) matches Some(x) ==> i <= x < c.len(),
    decreases c.len() - i,
{
    if i < c.len() && k >= 1 {
        if c[i] == ch {
            if k != 1 {
                lemma_nth_fwd(c, ch, i + 1, k - 1);
            }
        } else {
            lemma_nth_fwd(c, ch, i + 1, k);
        }
    }
}

proof fn lemma_nth_back(c: Seq<char>, ch: char, j: int, k: int)
    ensures
        nth_back(c, ch, j, k) matches Some(x) ==> 0 <= x < j,
    decreases j,
{
    if 0 < j <= c.len() && k >= 1 {
        if c[j - 1] == ch {
            if k != 1 {
                lemma_nth_back(c, ch, j - 1, k - 1);
            }
        } else {
            lemma_nth_back(c, ch, j - 1, k);
        }
    }
}

/// A find lands within the line.
proof fn lemma_find_range(c: Seq<char>, col: int, kind: FindKind, ch: char, count: int, skip_adjacent: bool)
    requires
        0 <= col,
    ensures
        spec_find_in_line(c, col, kind, ch, count, skip_adjacent) matches Some(x) ==> 0 <= x
            <= c.len(),
{
    if find_forward(kind) {
        let from = if skip_adjacent && kind == FindKind::Till {
            col + 2
        } else {
            col + 1
        };
        lemma_nth_fwd(c, ch, from, count);
    } else {
        lemma_nth_back(c, ch, back_start(c.len() as int, col, kind, skip_adjacent), count);
    }
}

/// How many of `c[a..b]` are `ch`.
pub open spec fn count_in(c: Seq<char>, ch: char, a: int, b: int) -> nat
    decreases b - a,
{
    if a >= b {
        0
    } else {
        (if c[a] == ch {
            1nat
        } else {
            0nat
        }) + count_in(c, ch, a + 1, b)
    }
}

pub proof fn lemma_count_in_right(c: Seq<char>, ch: char, a: int, b: int)
    requires
        a < b,
    ensures
        count_in(c, ch, a, b) == count_in(c, ch, a, b - 1) + (if c[b - 1] == ch {
            1nat
        } else {
            0nat
        }),
    decreases b - a,
{
    reveal_with_fuel(count_in, 2);
    if a + 1 < b {
        lemma_count_in_right(c, ch, a + 1, b);
        assert(count_in(c, ch, a, b - 1) == (if c[a] == ch {
            1nat
        } else {
            0nat
        }) + count_in(c, ch, a + 1, b - 1));
    }
}

pub proof fn lemma_count_in_split(c: Seq<char>, ch: char, a: int, b: int, d: int)
    requires
        a <= b <= d,
    ensures
        count_in(c, ch, a, d) == count_in(c, ch, a, b) + count_in(c, ch, b, d),
    decreases b - a,
{
    if a < b {
        lemma_count_in_split(c, ch, a + 1, b, d);
    }
}

pub proof fn lemma_count_in_zero(c: Seq<char>, ch: char, a: int, b: int)
    requires
        count_in(c, ch, a, b) == 0,
    ensures
        forall|j: int| a <= j < b ==> #[trigger] c[j] != ch,
    decreases b - a,
{
    if a < b {
        lemma_count_in_zero(c, ch, a + 1, b);
    }
}

proof fn lemma_nth_fwd_count(c: Seq<char>, ch: char, i: int, k: int)
    requires
        0 <= i <= c.len(),
        k >= 1,
    ensures
        nth_fwd(c, ch, i, k) matches Some(x) ==> i <= x < c.len() && c[x] == ch && count_in(c, ch, i, x + 1) == k,
        nth_fwd(c, ch, i, k) is None ==> count_in(c, ch, i, c.len() as int) < k,
    decreases c.len() - i,
{
    reveal_with_fuel(count_in, 2);
    if i < c.len() {
        if c[i] == ch {
            if k != 1 {
                lemma_nth_fwd_count(c, ch, i + 1, k - 1);
            }
        } else {
            lemma_nth_fwd_count(c, ch, i + 1, k);
        }
    }
}

proof fn lemma_nth_back_count(c: Seq<char>, ch: char, j: int, k: int)
    requires
        0 <= j <= c.len(),
        k >= 1,
    ensures
        nth_back(c, ch, j, k) matches Some(x) ==> 0 <= x < j && c[x] == ch && count_in(c, ch, x, j) == k,
        nth_back(c, ch, j, k) is None ==> count_in(c, ch, 0, j) < k,
    decreases j,
{
    reveal_with_fuel(count_in, 2);
    if j > 0 {
        lemma_count_in_right(c, ch, 0, j);
        if c[j - 1] == ch {
            if k != 1 {
                lemma_nth_back_count(c, ch, j - 1, k - 1);
                if nth_back(c, ch, j - 1, k - 1) is Some {
                    let x = nth_back(c, ch, j - 1, k - 1)->0;
                    lemma_count_in_right(c, ch, x, j);
                }
            }
        } else {
            lemma_nth_back_count(c, ch, j - 1, k);
            if nth_back(c, ch, j - 1, k) is Some {
                let x = nth_back(c, ch, j - 1, k)->0;
                lemma_count_in_right(c, ch, x, j);
            }
        }
    }
}

/// Law of `f`/`t`/`F`/`T` with a count: `f` lands on the `count`-th `ch`
/// after the cursor column, `t` one column before it; `F` lands on the
/// `count`-th `ch` before the cursor going back, `T` one column after it;
/// and there is no move exactly when the line holds fewer than `count`
/// such chars on that side of the cursor.
pub proof fn lemma_find_in_line_law(c: Seq<char>, col: int, kind: FindKind, ch: char, count: int)
    requires
        0 <= col,
        count >= 1,
    ensures
        find_forward(kind) ==> match spec_find_in_line(c, col, kind, ch, count, false) {
            Some(y) => {
                let x = if kind == FindKind::Till {
                    y + 1
                } else {
                    y
                };
                col < x < c.len() && c[x] == ch && count_in(c, ch, col + 1, x + 1) == count
            },
            None => count_in(c, ch, col + 1, c.len() as int) < count,
        },
        !find_forward(kind) ==> {
            let until = if col < c.len() {
                col
            } else {
                c.len() as int
            };
            match spec_find_in_line(c, col, kind, ch, count, false) {
                Some(y) => {
                    let x = if kind == FindKind::TillBack {
                        y - 1
                    } else {
                        y
                    };
                    0 <= x < until && c[x] == ch && count_in(c, ch, x, until) == count
                },
                None => count_in(c, ch, 0, until) < count,
            }
        },
{
    if find_forward(kind) {
        if col + 1 <= c.len() {
            lemma_nth_fwd_count(c, ch, col + 1, count);
        }
    } else {
        let until = if col < c.len() {
            col
        } else {
            c.len() as int
        };
        assert(back_start(c.len() as int, col, kind, false) == until);
        lemma_nth_back_count(c, ch, until, count);
    }
}

fn find_in_line(
    c: &Vec<char>,
    col: usize,
    kind: FindKind,
    ch: char,
    count: usize,
    skip_adjacent: bool,
) -> (r: Option<usize>)
    requires
        count >= 1,
        col + 2 <= usize::MAX,
    ensures
        match (r, spec_find_in_line(c@, col as int, kind, ch, count as int, skip_adjacent)) {
            (Some(a), Some(b)) => a == b,
            (None, None) => true,
            _ => false,
        },
        r matches Some(x) ==> x <= c@.len(),
{
    proof {
        lemma_find_range(c@, col as int, kind, ch, count as int, skip_adjacent);
    }
    let mut remaining = count;
    if kind == FindKind::To || kind == FindKind::Till {
        let from = if skip_adjacent && kind == FindKind::Till {
            col + 2
        } else {
            col + 1
        };
        let mut i = from;
        proof {
            lemma_nth_fwd(c@, ch, from as int, count as int);
        }
        while i < c.len()
            invariant
                from <= i,
                from >= 1,
                remaining >= 1,
                kind == FindKind::To || kind == FindKind::Till,
                from == (if skip_adjacent && kind == FindKind::Till {
                    col + 2
                } else {
                    col + 1
                }),
                nth_fwd(c@, ch, from as int, count as int) == nth_fwd(
                    c@,
                    ch,
                    i as int,
                    remaining as int,
                ),
            decreases c@.len() - i,
        {
            if c[i] == ch {
                if remaining == 1 {
                    return Some(
                        if kind == FindKind::Till {
                            i - 1
                        } else {
                            i
                        },
                    );
                }
                remaining -= 1;
            }
            i += 1;
        }
        None
    } else {
        let until = if skip_adjacent && kind == FindKind::TillBack {
            if col >= 1 {
                col - 1
            } else {
                0
            }
        } else {
            col
        };
        let mut j = if until < c.len() {
            until
        } else {
            c.len()
        };
        let ghost j0 = j;
        proof {
            lemma_nth_back(c@, ch, j as int, count as int);
        }
        while j > 0
            invariant
                j <= j0 <= c@.len(),
                remaining >= 1,
                !(kind == FindKind::To || kind == FindKind::Till),
                j0 == back_start(c@.len() as int, col as int, kind, skip_adjacent),
                nth_back(c@, ch, j0 as int, count as int) == nth_back(c@, ch, j as int, remaining as int),
            decreases j,
        {
            if c[j - 1] == ch {
                if remaining == 1 {
                    return Some(
                        if kind == FindKind::TillBack {
                            j
                        } else {
                            j - 1
                        },
                    );
                }
                remaining -= 1;
            }
            j -= 1;
        }
        None
    }
}

/// Where a char index lands as a cursor: past the end it is the last
/// line's end (operators may sit on the newline) or its last grapheme;
/// otherwise its line, the column clamped to the usable ones and snapped
/// to the start of its grapheme.
pub open spec fn spec_cursor_of_abs(t: Seq<char>, abs: int, tabstop: nat, for_operator: bool) -> Cursor {
    let last = last_line(t);
    if abs >= t.len() {
        Cursor {
            line: last as usize,
            col: (if for_operator {
                spec_line_content(t, last as nat).len() as int
            } else {
                spec_max_normal_col(spec_line_content(t, last as nat), tabstop)
            }) as usize,
        }
    } else {
        let line = if breaks_upto(t, abs) < last {
            breaks_upto(t, abs) as int
        } else {
            last
        };
        let content = spec_line_content(t, line as nat);
        let col0 = abs - line_start(t, line as nat);
        let limit = if for_operator {
            content.len() as int
        } else {
            spec_max_normal_col(content, tabstop)
        };
        let col1 = if col0 > limit {
            limit
        } else {
            col0
        };
        let grs = spec_line_graphemes(content, tabstop);
        let col = if col1 < content.len() {
            match first_at_col(grs, col1, 0) {
                Some(i) => grs[i].char_off as int,
                None => end_col(grs),
            }
        } else {
            col1
        };
        Cursor { line: line as usize, col: col as usize }
    }
}

fn cursor_of_abs(rope: &Rope, abs: usize, tabstop: usize, for_operator: bool) -> (c: Cursor)
    requires
        text_fits(rope_text(*rope), tabstop as nat),
    ensures
        c == spec_cursor_of_abs(rope_text(*rope), abs as int, tabstop as nat, for_operator),
        cursor_ok(rope_text(*rope), c),
{
    let ghost t = rope_text(*rope);
    proof {
        lemma_text_lines_bound(t);
    }
    let len = rope_len_chars(rope);
    let last = text_lines(rope) - 1;
    proof {
        lemma_content_fits(t, last as nat, tabstop as nat);
    }
    if abs >= len {
        return if for_operator {
            Cursor::new(last, line_len(rope, last))
        } else {
            Cursor::new(last, max_normal_col(rope, last, tabstop))
        };
    }
    let cl = rope_char_to_line(rope, abs);
    let line = if cl < last {
        cl
    } else {
        last
    };
    proof {
        crate::editing::rope::lemma_line_start_before(t, line as nat, abs as int);
        lemma_content_fits(t, line as nat, tabstop as nat);
    }
    let start = rope_line_to_char(rope, line);
    let mut col = abs - start;
    let limit = if for_operator {
        line_len(rope, line)
    } else {
        max_normal_col(rope, line, tabstop)
    };
    if col > limit {
        col = limit;
    }
    let content = line_content(rope, line);
    let grs = line_graphemes(content.as_str(), tabstop);
    if col < line_len(rope, line) {
        proof {
            crate::editing::text::lemma_first_at_col_range(grs@, col as int, 0);
        }
        col = snap_to_grapheme(grs.as_slice(), col);
        proof {
            if grs@.len() > 0 {
                assert(grs@[grs@.len() - 1].chars >= 1);
            }
        }
    }
    Cursor::new(line, col)
}


/// What motions read besides the cursor.
pub struct MotionCtx<'a> {
    pub rope: &'a Rope,
    /// Sticky display column for vertical movement (`usize::MAX` = line end).
    pub goal: Option<usize>,
    pub last_find: Option<(FindKind, char)>,
    pub tabstop: usize,
    /// Operator targets may sit on the newline (col == line length).
    pub for_operator: bool,
}

/// `w` applied `n` times.
pub open spec fn iter_next(t: Seq<char>, abs: int, big: bool, n: nat) -> int
    decreases n,
{
    if n == 0 {
        abs
    } else {
        iter_next(t, spec_next_word_start(t, abs, big), big, (n - 1) as nat)
    }
}

/// `b` applied `n` times.
pub open spec fn iter_prev(t: Seq<char>, abs: int, big: bool, n: nat) -> int
    decreases n,
{
    if n == 0 {
        abs
    } else {
        iter_prev(t, spec_prev_word_start(t, abs, big), big, (n - 1) as nat)
    }
}

/// `e` applied `n` times.
pub open spec fn iter_end(t: Seq<char>, abs: int, big: bool, n: nat) -> int
    decreases n,
{
    if n == 0 {
        abs
    } else {
        iter_end(t, spec_word_end(t, abs, big), big, (n - 1) as nat)
    }
}

/// `}` applied `n` times.
pub open spec fn iter_para_forward(t: Seq<char>, l: int, n: nat) -> int
    decreases n,
{
    if n == 0 {
        l
    } else {
        iter_para_forward(t, spec_para_forward(t, l), (n - 1) as nat)
    }
}

/// `{` applied `n` times.
pub open spec fn iter_para_back(t: Seq<char>, l: int, n: nat) -> int
    decreases n,
{
    if n == 0 {
        l
    } else {
        iter_para_back(t, spec_para_back(t, l), (n - 1) as nat)
    }
}

/// An outcome that resets the goal column and sets no find.
pub open spec fn plain(cursor: Cursor, kind: MotionKind) -> MotionOutcome {
    MotionOutcome { cursor, kind, new_goal: None, new_last_find: None }
}

/// The kind of a find motion: forward finds include their target.
pub open spec fn find_kind_of(kind: FindKind) -> MotionKind {
    if find_forward(kind) {
        MotionKind::Inclusive
    } else {
        MotionKind::Exclusive
    }
}

/// The opposite direction of a find.
pub open spec fn reversed(kind: FindKind) -> FindKind {
    match kind {
        FindKind::To => FindKind::ToBack,
        FindKind::ToBack => FindKind::To,
        FindKind::Till => FindKind::TillBack,
        FindKind::TillBack => FindKind::Till,
    }
}

/// The char index of a cursor.
pub open spec fn abs_of(t: Seq<char>, c: Cursor) -> int {
    line_start(t, c.line as nat) + c.col
}

/// The column a vertical move lands on in a line laid out as `tg`.
pub open spec fn col_for_goal(tg: Seq<Gr>, goal: int) -> int {
    if goal == usize::MAX {
        if tg.len() > 0 {
            tg.last().char_off as int
        } else {
            0
        }
    } else {
        match first_at_cell(tg, goal, 0) {
            Some(i) => tg[i].char_off as int,
            None => if tg.len() == 0 {
                0
            } else {
                tg.last().char_off as int
            },
        }
    }
}

/// Law of `j`/`k` with a count: there is no move up from the first line
/// or down from the last; otherwise the cursor goes `count` lines up or
/// down, stopping at the first or last line, the motion is linewise, and
/// the goal column is sticky: a goal already set is kept as it was, and
/// without one the cell under the cursor becomes the goal.
pub proof fn lemma_vertical_law(
    motion: Motion,
    count: Option<usize>,
    cursor: Cursor,
    t: Seq<char>,
    goal: Option<usize>,
    last_find: Option<(FindKind, char)>,
    tabstop: nat,
    for_operator: bool,
)
    requires
        motion == Motion::Up || motion == Motion::Down,
        t.len() <= usize::MAX,
    ensures
        ({
            let n: int = match count {
                Some(c) => if c >= 1 {
                    c as int
                } else {
                    1
                },
                None => 1,
            };
            let up = motion == Motion::Up;
            let last = last_line(t);
            let r = spec_resolve(motion, count, cursor, t, goal, last_find, tabstop, for_operator);
            &&& r is None <==> ((up && cursor.line == 0) || (!up && cursor.line == last))
            &&& r matches Some(o) ==> {
                &&& o.kind == MotionKind::Linewise
                &&& o.new_last_find is None
                &&& up ==> o.cursor.line == (if cursor.line >= n {
                    cursor.line - n
                } else {
                    0
                })
                &&& !up ==> o.cursor.line == (if cursor.line + n <= last {
                    cursor.line + n
                } else {
                    last
                })
                &&& goal is Some ==> o.new_goal == goal
                &&& goal is None ==> o.new_goal == Some(
                    crate::editing::text::spec_cell_at_col(
                        spec_line_graphemes(spec_line_content(t, cursor.line as nat), tabstop),
                        cursor.col as int,
                    ) as usize,
                )
            }
        }),
{
    lemma_text_lines_bound(t);
    crate::editing::rope::lemma_breaks_bound(t, t.len() as int);
}

/// What a motion resolves to, or none when it cannot move (up on the first
/// line, down on the last, a find that finds nothing, a repeat with no
/// find to repeat).
pub open spec fn spec_resolve(
    motion: Motion,
    count: Option<usize>,
    cursor: Cursor,
    t: Seq<char>,
    goal: Option<usize>,
    last_find: Option<(FindKind, char)>,
    tabstop: nat,
    for_operator: bool,
) -> Option<MotionOutcome> {
    let n: int = match count {
        Some(c) => if c >= 1 {
            c as int
        } else {
            1
        },
        None => 1,
    };
    let last = last_line(t);
    let content = spec_line_content(t, cursor.line as nat);
    let grs = spec_line_graphemes(content, tabstop);
    let line_at = |l: int, col: int| Cursor { line: l as usize, col: col as usize };
    match motion {
        Motion::Left => if grs.len() == 0 {
            Some(plain(line_at(cursor.line as int, 0), MotionKind::Exclusive))
        } else {
            let idx = match first_at_col(grs, cursor.col as int, 0) {
                Some(i) => i,
                None => grs.len() as int,
            };
            let back = if idx - n >= 0 {
                idx - n
            } else {
                0
            };
            let k = if back < grs.len() - 1 {
                back
            } else {
                grs.len() - 1
            };
            Some(plain(line_at(cursor.line as int, grs[k].char_off as int), MotionKind::Exclusive))
        },
        Motion::Right => if grs.len() == 0 {
            Some(plain(cursor, MotionKind::Exclusive))
        } else {
            let idx = match first_at_col(grs, cursor.col as int, 0) {
                Some(i) => i,
                None => grs.len() - 1,
            };
            let max_idx = if for_operator {
                grs.len() as int
            } else {
                grs.len() - 1
            };
            let tgt = if idx + n < max_idx {
                idx + n
            } else {
                max_idx
            };
            let col = if tgt == grs.len() {
                content.len() as int
            } else {
                grs[tgt].char_off as int
            };
            Some(plain(line_at(cursor.line as int, col), MotionKind::Exclusive))
        },
        Motion::Up | Motion::Down => {
            let up = motion == Motion::Up;
            if (up && cursor.line == 0) || (!up && cursor.line == last) {
                None
            } else {
                let line = if up {
                    if cursor.line - n >= 0 {
                        cursor.line - n
                    } else {
                        0
                    }
                } else if cursor.line + n < last {
                    cursor.line + n
                } else {
                    last
                };
                let g: int = match goal {
                    Some(x) => x as int,
                    None => match first_at_col(grs, cursor.col as int, 0) {
                        Some(i) => grs[i].cell as int,
                        None => end_cell(grs),
                    },
                };
                let tg = spec_line_graphemes(spec_line_content(t, line as nat), tabstop);
                Some(
                    MotionOutcome {
                        cursor: line_at(line, col_for_goal(tg, g)),
                        kind: MotionKind::Linewise,
                        new_goal: Some(g as usize),
                        new_last_find: None,
                    },
                )
            }
        },
        Motion::LineStart => Some(plain(line_at(cursor.line as int, 0), MotionKind::Exclusive)),
        Motion::FirstNonBlank => Some(
            plain(line_at(cursor.line as int, spec_first_non_blank(content)), MotionKind::Exclusive),
        ),
        Motion::LineEnd => {
            let line = if cursor.line + n - 1 < last {
                cursor.line + n - 1
            } else {
                last
            };
            Some(
                MotionOutcome {
                    cursor: line_at(
                        line,
                        spec_max_normal_col(spec_line_content(t, line as nat), tabstop),
                    ),
                    kind: MotionKind::Inclusive,
                    new_goal: Some(usize::MAX),
                    new_last_find: None,
                },
            )
        },
        Motion::WordForward { big } => Some(
            plain(
                spec_cursor_of_abs(t, iter_next(t, abs_of(t, cursor), big, n as nat), tabstop, for_operator),
                MotionKind::Exclusive,
            ),
        ),
        Motion::WordBack { big } => Some(
            plain(
                spec_cursor_of_abs(t, iter_prev(t, abs_of(t, cursor), big, n as nat), tabstop, false),
                MotionKind::Exclusive,
            ),
        ),
        Motion::WordEnd { big } => Some(
            plain(
                spec_cursor_of_abs(t, iter_end(t, abs_of(t, cursor), big, n as nat), tabstop, false),
                MotionKind::Inclusive,
            ),
        ),
        Motion::GotoFirst | Motion::GotoLast => {
            let line = match count {
                Some(c) => if c - 1 < last {
                    c - 1
                } else {
                    last
                },
                None => if motion == Motion::GotoFirst {
                    0
                } else {
                    last
                },
            };
            Some(
                plain(
                    line_at(line, spec_first_non_blank(spec_line_content(t, line as nat))),
                    MotionKind::Linewise,
                ),
            )
        },
        Motion::ParaForward => {
            let line = iter_para_forward(t, cursor.line as int, n as nat);
            let col = if blank_line(t, line) {
                0
            } else {
                spec_max_normal_col(spec_line_content(t, line as nat), tabstop)
            };
            Some(plain(line_at(line, col), MotionKind::Exclusive))
        },
        Motion::ParaBack => Some(
            plain(line_at(iter_para_back(t, cursor.line as int, n as nat), 0), MotionKind::Exclusive),
        ),
        Motion::Find { kind, ch } => match spec_find_in_line(
            content,
            cursor.col as int,
            kind,
            ch,
            n,
            false,
        ) {
            Some(col) => Some(
                MotionOutcome {
                    cursor: line_at(cursor.line as int, col),
                    kind: find_kind_of(kind),
                    new_goal: None,
                    new_last_find: Some((kind, ch)),
                },
            ),
            None => None,
        },
        Motion::RepeatFind => match last_find {
            None => None,
            Some((kind, ch)) => match spec_find_in_line(
                content,
                cursor.col as int,
                kind,
                ch,
                n,
                true,
            ) {
                Some(col) => Some(plain(line_at(cursor.line as int, col), find_kind_of(kind))),
                None => None,
            },
        },
        Motion::RepeatFindRev => match last_find {
            None => None,
            Some((kind, ch)) => match spec_find_in_line(
                content,
                cursor.col as int,
                reversed(kind),
                ch,
                n,
                true,
            ) {
                Some(col) => Some(
                    plain(line_at(cursor.line as int, col), find_kind_of(reversed(kind))),
                ),
                None => None,
            },
        },
    }
}

/// Law of `;` and `,`: with nothing found before they do not move; `;`
/// after `f`/`F` moves as the same find again, and `,` as the find the
/// other way; `;` after `t`/`T` moves as the same find made from one
/// column further on, so that it does not stay stuck before the char it
/// stopped at. Only the find itself records itself as the last find.
pub proof fn lemma_repeat_find_law(
    count: Option<usize>,
    cursor: Cursor,
    t: Seq<char>,
    goal: Option<usize>,
    kind: FindKind,
    ch: char,
    tabstop: nat,
    for_operator: bool,
)
    ensures
        spec_resolve(Motion::RepeatFind, count, cursor, t, goal, None, tabstop, for_operator) is None,
        spec_resolve(Motion::RepeatFindRev, count, cursor, t, goal, None, tabstop, for_operator) is None,
        (kind == FindKind::To || kind == FindKind::ToBack) ==> same_move(
            spec_resolve(Motion::RepeatFind, count, cursor, t, goal, Some((kind, ch)), tabstop, for_operator),
            spec_resolve(Motion::Find { kind, ch }, count, cursor, t, goal, None, tabstop, for_operator),
        ),
        (kind == FindKind::To || kind == FindKind::ToBack) ==> same_move(
            spec_resolve(Motion::RepeatFindRev, count, cursor, t, goal, Some((kind, ch)), tabstop, for_operator),
            spec_resolve(Motion::Find { kind: reversed(kind), ch }, count, cursor, t, goal, None, tabstop, for_operator),
        ),
        spec_resolve(Motion::Find { kind, ch }, count, cursor, t, goal, None, tabstop, for_operator) matches Some(o)
            ==> o.new_last_find == Some((kind, ch)),
        ({
            let n: int = match count {
                Some(c) => if c >= 1 {
                    c as int
                } else {
                    1
                },
                None => 1,
            };
            let content = spec_line_content(t, cursor.line as nat);
            &&& spec_find_in_line(content, cursor.col as int, FindKind::Till, ch, n, true)
                == spec_find_in_line(content, cursor.col + 1, FindKind::Till, ch, n, false)
            &&& cursor.col >= 1 ==> spec_find_in_line(content, cursor.col as int, FindKind::TillBack, ch, n, true)
                == spec_find_in_line(content, cursor.col - 1, FindKind::TillBack, ch, n, false)
        }),
{
}

/// Two motion results that move the same way: both none, or both to the
/// same cursor with the same kind, the first recording no last find.
pub open spec fn same_move(a: Option<MotionOutcome>, b: Option<MotionOutcome>) -> bool {
    match (a, b) {
        (None, None) => true,
        (Some(x), Some(y)) => x.cursor == y.cursor && x.kind == y.kind && x.new_last_find is None,
        _ => false,
    }
}

/// A cursor on an existing line, within or at the end of its content.
pub open spec fn cursor_ok(t: Seq<char>, c: Cursor) -> bool {
    c.line < line_count(t) && c.col <= spec_line_content(t, c.line as nat).len()
}

/// The inputs motions are defined on: a text that fits the layout, a
/// cursor on an existing line within (or at the end of) its content, and
/// a count small enough to add to positions.
pub open spec fn resolvable(motion: Motion, count: Option<usize>, cursor: Cursor, t: Seq<char>, tabstop: nat) -> bool {
    &&& text_fits(t, tabstop)
    &&& cursor.line < line_count(t)
    &&& cursor.col <= spec_line_content(t, cursor.line as nat).len()
    &&& (count matches Some(c) ==> c + t.len() + cursor.line <= usize::MAX)
    &&& ((motion == Motion::GotoFirst || motion == Motion::GotoLast) && count is Some ==> count->0
        >= 1)
}

/// The outcome of an exact-result motion wrapped as a public call.
fn outcome(cursor: Cursor, kind: MotionKind) -> (o: MotionOutcome)
    ensures
        o == plain(cursor, kind),
{
    MotionOutcome { cursor, kind, new_goal: None, new_last_find: None }
}


proof fn lemma_abs_of(t: Seq<char>, c: Cursor)
    requires
        c.line < line_count(t),
        c.col <= spec_line_content(t, c.line as nat).len(),
    ensures
        0 <= abs_of(t, c) <= t.len(),
{
    crate::editing::rope::lemma_line_start(t, c.line as nat, c.line as nat + 1);
    crate::editing::rope::lemma_line_start(t, c.line as nat + 1, c.line as nat + 1);
}

#[verifier::spinoff_prover]
#[verifier::rlimit(80)]
fn resolve_left(motion: Motion, count: Option<usize>, cursor: Cursor, ctx: &MotionCtx) -> (r: Option<
    MotionOutcome,
>)
    requires
        resolvable(motion, count, cursor, rope_text(*ctx.rope), ctx.tabstop as nat),
        motion is Left,
    ensures
        r == spec_resolve(
            motion,
            count,
            cursor,
            rope_text(*ctx.rope),
            ctx.goal,
            ctx.last_find,
            ctx.tabstop as nat,
            ctx.for_operator,
        ),
        r matches Some(o) ==> cursor_ok(rope_text(*ctx.rope), o.cursor),
{
    let rope = ctx.rope;
    let ghost t = rope_text(*rope);
    let tabstop = ctx.tabstop;
    proof {
        lemma_text_lines_bound(t);
        crate::editing::rope::lemma_breaks_bound(t, t.len() as int);
        lemma_content_fits(t, cursor.line as nat, tabstop as nat);
        assert(t.len() <= usize::MAX / 4) by (nonlinear_arith)
            requires
                t.len() * (3 + tabstop) <= usize::MAX,
                tabstop >= 1,
        ;
    }
    let n: usize = match count {
        Some(c) => if c >= 1 {
            c
        } else {
            1
        },
        None => 1,
    };
    let last = text_lines(rope) - 1;
    let content = line_content(rope, cursor.line);
    let grs = line_graphemes(content.as_str(), tabstop);
    match motion {
        Motion::Left => {
            if grs.len() == 0 {
                return Some(outcome(Cursor::new(cursor.line, 0), MotionKind::Exclusive));
            }
            let idx = match gr_index_at_col(grs.as_slice(), cursor.col) {
                Some(i) => i,
                None => grs.len(),
            };
            let back = if idx >= n {
                idx - n
            } else {
                0
            };
            let k = if back < grs.len() - 1 {
                back
            } else {
                grs.len() - 1
            };
            Some(outcome(Cursor::new(cursor.line, grs[k].char_off), MotionKind::Exclusive))
        },
        _ => None,
    }
}

#[verifier::spinoff_prover]
#[verifier::rlimit(80)]
fn resolve_right(motion: Motion, count: Option<usize>, cursor: Cursor, ctx: &MotionCtx) -> (r: Option<
    MotionOutcome,
>)
    requires
        resolvable(motion, count, cursor, rope_text(*ctx.rope), ctx.tabstop as nat),
        motion is Right,
    ensures
        r == spec_resolve(
            motion,
            count,
            cursor,
            rope_text(*ctx.rope),
            ctx.goal,
            ctx.last_find,
            ctx.tabstop as nat,
            ctx.for_operator,
        ),
        r matches Some(o) ==> cursor_ok(rope_text(*ctx.rope), o.cursor),
{
    let rope = ctx.rope;
    let ghost t = rope_text(*rope);
    let tabstop = ctx.tabstop;
    proof {
        lemma_text_lines_bound(t);
        crate::editing::rope::lemma_breaks_bound(t, t.len() as int);
        lemma_content_fits(t, cursor.line as nat, tabstop as nat);
        assert(t.len() <= usize::MAX / 4) by (nonlinear_arith)
            requires
                t.len() * (3 + tabstop) <= usize::MAX,
                tabstop >= 1,
        ;
    }
    let n: usize = match count {
        Some(c) => if c >= 1 {
            c
        } else {
            1
        },
        None => 1,
    };
    let last = text_lines(rope) - 1;
    let content = line_content(rope, cursor.line);
    let grs = line_graphemes(content.as_str(), tabstop);
    match motion {
        Motion::Right => {
            if grs.len() == 0 {
                return Some(outcome(cursor, MotionKind::Exclusive));
            }
            let idx = match gr_index_at_col(grs.as_slice(), cursor.col) {
                Some(i) => i,
                None => grs.len() - 1,
            };
            let max_idx = if ctx.for_operator {
                grs.len()
            } else {
                grs.len() - 1
            };
            let tgt = if n < max_idx - idx {
                idx + n
            } else {
                max_idx
            };
            let col = if tgt == grs.len() {
                line_len(rope, cursor.line)
            } else {
                grs[tgt].char_off
            };
            Some(outcome(Cursor::new(cursor.line, col), MotionKind::Exclusive))
        },
        _ => None,
    }
}

#[verifier::spinoff_prover]
#[verifier::rlimit(60)]
fn resolve_vertical(motion: Motion, count: Option<usize>, cursor: Cursor, ctx: &MotionCtx) -> (r: Option<
    MotionOutcome,
>)
    requires
        resolvable(motion, count, cursor, rope_text(*ctx.rope), ctx.tabstop as nat),
        motion is Up || motion is Down,
    ensures
        r == spec_resolve(
            motion,
            count,
            cursor,
            rope_text(*ctx.rope),
            ctx.goal,
            ctx.last_find,
            ctx.tabstop as nat,
            ctx.for_operator,
        ),
        r matches Some(o) ==> cursor_ok(rope_text(*ctx.rope), o.cursor),
{
    let rope = ctx.rope;
    let ghost t = rope_text(*rope);
    let tabstop = ctx.tabstop;
    proof {
        lemma_text_lines_bound(t);
        crate::editing::rope::lemma_breaks_bound(t, t.len() as int);
        lemma_content_fits(t, cursor.line as nat, tabstop as nat);
        assert(t.len() <= usize::MAX / 4) by (nonlinear_arith)
            requires
                t.len() * (3 + tabstop) <= usize::MAX,
                tabstop >= 1,
        ;
    }
    let n: usize = match count {
        Some(c) => if c >= 1 {
            c
        } else {
            1
        },
        None => 1,
    };
    let last = text_lines(rope) - 1;
    let content = line_content(rope, cursor.line);
    let grs = line_graphemes(content.as_str(), tabstop);
    match motion {
        Motion::Up | Motion::Down => {
            let up = motion == Motion::Up;
            let line = if up {
                if cursor.line == 0 {
                    return None;
                }
                if cursor.line >= n {
                    cursor.line - n
                } else {
                    0
                }
            } else {
                if cursor.line == last {
                    return None;
                }
                if cursor.line + n < last {
                    cursor.line + n
                } else {
                    last
                }
            };
            let goal = match ctx.goal {
                Some(g) => g,
                None => cell_at_col(grs.as_slice(), cursor.col),
            };
            proof {
                lemma_content_fits(t, line as nat, tabstop as nat);
            }
            let tcontent = line_content(rope, line);
            let tgrs = line_graphemes(tcontent.as_str(), tabstop);
            let col = if goal == usize::MAX {
                if tgrs.len() > 0 {
                    tgrs[tgrs.len() - 1].char_off
                } else {
                    0
                }
            } else {
                proof {
                    crate::editing::text::lemma_first_at_cell_range(tgrs@, goal as int, 0);
                }
                col_at_cell(tgrs.as_slice(), goal)
            };
            proof {
                if tgrs@.len() > 0 {
                    assert(tgrs@[tgrs@.len() - 1].chars >= 1);
                }
                assert(col <= tcontent@.len());
            }
            Some(
                MotionOutcome {
                    cursor: Cursor::new(line, col),
                    kind: MotionKind::Linewise,
                    new_goal: Some(goal),
                    new_last_find: None,
                },
            )
        },
        _ => None,
    }
}

#[verifier::spinoff_prover]
#[verifier::rlimit(80)]
fn resolve_line_start(motion: Motion, count: Option<usize>, cursor: Cursor, ctx: &MotionCtx) -> (r: Option<
    MotionOutcome,
>)
    requires
        resolvable(motion, count, cursor, rope_text(*ctx.rope), ctx.tabstop as nat),
        motion is LineStart,
    ensures
        r == spec_resolve(
            motion,
            count,
            cursor,
            rope_text(*ctx.rope),
            ctx.goal,
            ctx.last_find,
            ctx.tabstop as nat,
            ctx.for_operator,
        ),
        r matches Some(o) ==> cursor_ok(rope_text(*ctx.rope), o.cursor),
{
    let rope = ctx.rope;
    let ghost t = rope_text(*rope);
    let tabstop = ctx.tabstop;
    proof {
        lemma_text_lines_bound(t);
        crate::editing::rope::lemma_breaks_bound(t, t.len() as int);
        lemma_content_fits(t, cursor.line as nat, tabstop as nat);
        assert(t.len() <= usize::MAX / 4) by (nonlinear_arith)
            requires
                t.len() * (3 + tabstop) <= usize::MAX,
                tabstop >= 1,
        ;
    }
    let n: usize = match count {
        Some(c) => if c >= 1 {
            c
        } else {
            1
        },
        None => 1,
    };
    let last = text_lines(rope) - 1;
    let content = line_content(rope, cursor.line);
    let grs = line_graphemes(content.as_str(), tabstop);
    match motion {
        Motion::LineStart => Some(outcome(Cursor::new(cursor.line, 0), MotionKind::Exclusive)),
        _ => None,
    }
}

#[verifier::spinoff_prover]
#[verifier::rlimit(80)]
fn resolve_first_non_blank(motion: Motion, count: Option<usize>, cursor: Cursor, ctx: &MotionCtx) -> (r: Option<
    MotionOutcome,
>)
    requires
        resolvable(motion, count, cursor, rope_text(*ctx.rope), ctx.tabstop as nat),
        motion is FirstNonBlank,
    ensures
        r == spec_resolve(
            motion,
            count,
            cursor,
            rope_text(*ctx.rope),
            ctx.goal,
            ctx.last_find,
            ctx.tabstop as nat,
            ctx.for_operator,
        ),
        r matches Some(o) ==> cursor_ok(rope_text(*ctx.rope), o.cursor),
{
    let rope = ctx.rope;
    let ghost t = rope_text(*rope);
    let tabstop = ctx.tabstop;
    proof {
        lemma_text_lines_bound(t);
        crate::editing::rope::lemma_breaks_bound(t, t.len() as int);
        lemma_content_fits(t, cursor.line as nat, tabstop as nat);
        assert(t.len() <= usize::MAX / 4) by (nonlinear_arith)
            requires
                t.len() * (3 + tabstop) <= usize::MAX,
                tabstop >= 1,
        ;
    }
    let n: usize = match count {
        Some(c) => if c >= 1 {
            c
        } else {
            1
        },
        None => 1,
    };
    let last = text_lines(rope) - 1;
    let content = line_content(rope, cursor.line);
    let grs = line_graphemes(content.as_str(), tabstop);
    match motion {
        Motion::FirstNonBlank => Some(
            outcome(
                Cursor::new(cursor.line, first_non_blank(rope, cursor.line)),
                MotionKind::Exclusive,
            ),
        ),
        _ => None,
    }
}

#[verifier::spinoff_prover]
#[verifier::rlimit(80)]
fn resolve_line_end(motion: Motion, count: Option<usize>, cursor: Cursor, ctx: &MotionCtx) -> (r: Option<
    MotionOutcome,
>)
    requires
        resolvable(motion, count, cursor, rope_text(*ctx.rope), ctx.tabstop as nat),
        motion is LineEnd,
    ensures
        r == spec_resolve(
            motion,
            count,
            cursor,
            rope_text(*ctx.rope),
            ctx.goal,
            ctx.last_find,
            ctx.tabstop as nat,
            ctx.for_operator,
        ),
        r matches Some(o) ==> cursor_ok(rope_text(*ctx.rope), o.cursor),
{
    let rope = ctx.rope;
    let ghost t = rope_text(*rope);
    let tabstop = ctx.tabstop;
    proof {
        lemma_text_lines_bound(t);
        crate::editing::rope::lemma_breaks_bound(t, t.len() as int);
        lemma_content_fits(t, cursor.line as nat, tabstop as nat);
        assert(t.len() <= usize::MAX / 4) by (nonlinear_arith)
            requires
                t.len() * (3 + tabstop) <= usize::MAX,
                tabstop >= 1,
        ;
    }
    let n: usize = match count {
        Some(c) => if c >= 1 {
            c
        } else {
            1
        },
        None => 1,
    };
    let last = text_lines(rope) - 1;
    let content = line_content(rope, cursor.line);
    let grs = line_graphemes(content.as_str(), tabstop);
    match motion {
        Motion::LineEnd => {
            let line = if cursor.line + n - 1 < last {
                cursor.line + n - 1
            } else {
                last
            };
            proof {
                lemma_content_fits(t, line as nat, tabstop as nat);
            }
            let col = max_normal_col(rope, line, tabstop);
            Some(
                MotionOutcome {
                    cursor: Cursor::new(line, col),
                    kind: MotionKind::Inclusive,
                    new_goal: Some(usize::MAX),
                    new_last_find: None,
                },
            )
        },
        _ => None,
    }
}

#[verifier::spinoff_prover]
#[verifier::rlimit(80)]
fn resolve_word_forward(motion: Motion, count: Option<usize>, cursor: Cursor, ctx: &MotionCtx) -> (r: Option<
    MotionOutcome,
>)
    requires
        resolvable(motion, count, cursor, rope_text(*ctx.rope), ctx.tabstop as nat),
        motion is WordForward,
    ensures
        r == spec_resolve(
            motion,
            count,
            cursor,
            rope_text(*ctx.rope),
            ctx.goal,
            ctx.last_find,
            ctx.tabstop as nat,
            ctx.for_operator,
        ),
        r matches Some(o) ==> cursor_ok(rope_text(*ctx.rope), o.cursor),
{
    let rope = ctx.rope;
    let ghost t = rope_text(*rope);
    let tabstop = ctx.tabstop;
    proof {
        lemma_text_lines_bound(t);
        crate::editing::rope::lemma_breaks_bound(t, t.len() as int);
        lemma_content_fits(t, cursor.line as nat, tabstop as nat);
        assert(t.len() <= usize::MAX / 4) by (nonlinear_arith)
            requires
                t.len() * (3 + tabstop) <= usize::MAX,
                tabstop >= 1,
        ;
    }
    let n: usize = match count {
        Some(c) => if c >= 1 {
            c
        } else {
            1
        },
        None => 1,
    };
    let last = text_lines(rope) - 1;
    let content = line_content(rope, cursor.line);
    let grs = line_graphemes(content.as_str(), tabstop);
    match motion {
        Motion::WordForward { big } => {
            proof {
                lemma_abs_of(t, cursor);
            }
            let mut abs = rope_line_to_char(rope, cursor.line) + cursor.col;
            let ghost a0 = abs as int;
            let mut k: usize = 0;
            while k < n
                invariant
                    k <= n,
                    t == rope_text(*rope),
                    abs <= t.len(),
                    iter_next(t, a0, big, n as nat) == iter_next(t, abs as int, big, (n - k) as nat),
                decreases n - k,
            {
                abs = next_word_start(rope, abs, big);
                k += 1;
            }
            Some(
                outcome(
                    cursor_of_abs(rope, abs, tabstop, ctx.for_operator),
                    MotionKind::Exclusive,
                ),
            )
        },
        _ => None,
    }
}

#[verifier::spinoff_prover]
#[verifier::rlimit(80)]
fn resolve_word_back(motion: Motion, count: Option<usize>, cursor: Cursor, ctx: &MotionCtx) -> (r: Option<
    MotionOutcome,
>)
    requires
        resolvable(motion, count, cursor, rope_text(*ctx.rope), ctx.tabstop as nat),
        motion is WordBack,
    ensures
        r == spec_resolve(
            motion,
            count,
            cursor,
            rope_text(*ctx.rope),
            ctx.goal,
            ctx.last_find,
            ctx.tabstop as nat,
            ctx.for_operator,
        ),
        r matches Some(o) ==> cursor_ok(rope_text(*ctx.rope), o.cursor),
{
    let rope = ctx.rope;
    let ghost t = rope_text(*rope);
    let tabstop = ctx.tabstop;
    proof {
        lemma_text_lines_bound(t);
        crate::editing::rope::lemma_breaks_bound(t, t.len() as int);
        lemma_content_fits(t, cursor.line as nat, tabstop as nat);
        assert(t.len() <= usize::MAX / 4) by (nonlinear_arith)
            requires
                t.len() * (3 + tabstop) <= usize::MAX,
                tabstop >= 1,
        ;
    }
    let n: usize = match count {
        Some(c) => if c >= 1 {
            c
        } else {
            1
        },
        None => 1,
    };
    let last = text_lines(rope) - 1;
    let content = line_content(rope, cursor.line);
    let grs = line_graphemes(content.as_str(), tabstop);
    match motion {
        Motion::WordBack { big } => {
            proof {
                lemma_abs_of(t, cursor);
            }
            let mut abs = rope_line_to_char(rope, cursor.line) + cursor.col;
            let ghost a0 = abs as int;
            let mut k: usize = 0;
            while k < n
                invariant
                    k <= n,
                    t == rope_text(*rope),
                    abs <= t.len(),
                    iter_prev(t, a0, big, n as nat) == iter_prev(t, abs as int, big, (n - k) as nat),
                decreases n - k,
            {
                abs = prev_word_start(rope, abs, big);
                k += 1;
            }
            Some(outcome(cursor_of_abs(rope, abs, tabstop, false), MotionKind::Exclusive))
        },
        _ => None,
    }
}

#[verifier::spinoff_prover]
#[verifier::rlimit(80)]
fn resolve_word_end(motion: Motion, count: Option<usize>, cursor: Cursor, ctx: &MotionCtx) -> (r: Option<
    MotionOutcome,
>)
    requires
        resolvable(motion, count, cursor, rope_text(*ctx.rope), ctx.tabstop as nat),
        motion is WordEnd,
    ensures
        r == spec_resolve(
            motion,
            count,
            cursor,
            rope_text(*ctx.rope),
            ctx.goal,
            ctx.last_find,
            ctx.tabstop as nat,
            ctx.for_operator,
        ),
        r matches Some(o) ==> cursor_ok(rope_text(*ctx.rope), o.cursor),
{
    let rope = ctx.rope;
    let ghost t = rope_text(*rope);
    let tabstop = ctx.tabstop;
    proof {
        lemma_text_lines_bound(t);
        crate::editing::rope::lemma_breaks_bound(t, t.len() as int);
        lemma_content_fits(t, cursor.line as nat, tabstop as nat);
        assert(t.len() <= usize::MAX / 4) by (nonlinear_arith)
            requires
                t.len() * (3 + tabstop) <= usize::MAX,
                tabstop >= 1,
        ;
    }
    let n: usize = match count {
        Some(c) => if c >= 1 {
            c
        } else {
            1
        },
        None => 1,
    };
    let last = text_lines(rope) - 1;
    let content = line_content(rope, cursor.line);
    let grs = line_graphemes(content.as_str(), tabstop);
    match motion {
        Motion::WordEnd { big } => {
            proof {
                lemma_abs_of(t, cursor);
            }
            let mut abs = rope_line_to_char(rope, cursor.line) + cursor.col;
            let ghost a0 = abs as int;
            let mut k: usize = 0;
            while k < n
                invariant
                    k <= n,
                    t == rope_text(*rope),
                    t.len() <= usize::MAX / 4,
                    abs <= t.len(),
                    iter_end(t, a0, big, n as nat) == iter_end(t, abs as int, big, (n - k) as nat),
                decreases n - k,
            {
                abs = word_end(rope, abs, big);
                k += 1;
            }
            Some(outcome(cursor_of_abs(rope, abs, tabstop, false), MotionKind::Inclusive))
        },
        _ => None,
    }
}

#[verifier::spinoff_prover]
#[verifier::rlimit(80)]
fn resolve_goto(motion: Motion, count: Option<usize>, cursor: Cursor, ctx: &MotionCtx) -> (r: Option<
    MotionOutcome,
>)
    requires
        resolvable(motion, count, cursor, rope_text(*ctx.rope), ctx.tabstop as nat),
        motion is GotoFirst || motion is GotoLast,
    ensures
        r == spec_resolve(
            motion,
            count,
            cursor,
            rope_text(*ctx.rope),
            ctx.goal,
            ctx.last_find,
            ctx.tabstop as nat,
            ctx.for_operator,
        ),
        r matches Some(o) ==> cursor_ok(rope_text(*ctx.rope), o.cursor),
{
    let rope = ctx.rope;
    let ghost t = rope_text(*rope);
    let tabstop = ctx.tabstop;
    proof {
        lemma_text_lines_bound(t);
        crate::editing::rope::lemma_breaks_bound(t, t.len() as int);
        lemma_content_fits(t, cursor.line as nat, tabstop as nat);
        assert(t.len() <= usize::MAX / 4) by (nonlinear_arith)
            requires
                t.len() * (3 + tabstop) <= usize::MAX,
                tabstop >= 1,
        ;
    }
    let n: usize = match count {
        Some(c) => if c >= 1 {
            c
        } else {
            1
        },
        None => 1,
    };
    let last = text_lines(rope) - 1;
    let content = line_content(rope, cursor.line);
    let grs = line_graphemes(content.as_str(), tabstop);
    match motion {
        Motion::GotoFirst | Motion::GotoLast => {
            let line = match count {
                Some(c) => if c - 1 < last {
                    c - 1
                } else {
                    last
                },
                None => if motion == Motion::GotoFirst {
                    0
                } else {
                    last
                },
            };
            Some(outcome(Cursor::new(line, first_non_blank(rope, line)), MotionKind::Linewise))
        },
        _ => None,
    }
}

#[verifier::spinoff_prover]
#[verifier::rlimit(80)]
fn resolve_para_forward(motion: Motion, count: Option<usize>, cursor: Cursor, ctx: &MotionCtx) -> (r: Option<
    MotionOutcome,
>)
    requires
        resolvable(motion, count, cursor, rope_text(*ctx.rope), ctx.tabstop as nat),
        motion is ParaForward,
    ensures
        r == spec_resolve(
            motion,
            count,
            cursor,
            rope_text(*ctx.rope),
            ctx.goal,
            ctx.last_find,
            ctx.tabstop as nat,
            ctx.for_operator,
        ),
        r matches Some(o) ==> cursor_ok(rope_text(*ctx.rope), o.cursor),
{
    let rope = ctx.rope;
    let ghost t = rope_text(*rope);
    let tabstop = ctx.tabstop;
    proof {
        lemma_text_lines_bound(t);
        crate::editing::rope::lemma_breaks_bound(t, t.len() as int);
        lemma_content_fits(t, cursor.line as nat, tabstop as nat);
        assert(t.len() <= usize::MAX / 4) by (nonlinear_arith)
            requires
                t.len() * (3 + tabstop) <= usize::MAX,
                tabstop >= 1,
        ;
    }
    let n: usize = match count {
        Some(c) => if c >= 1 {
            c
        } else {
            1
        },
        None => 1,
    };
    let last = text_lines(rope) - 1;
    let content = line_content(rope, cursor.line);
    let grs = line_graphemes(content.as_str(), tabstop);
    match motion {
        Motion::ParaForward => {
            let mut line = cursor.line;
            let ghost l0 = line as int;
            let mut k: usize = 0;
            while k < n
                invariant
                    k <= n,
                    t == rope_text(*rope),
                    line < line_count(t),
                    iter_para_forward(t, l0, n as nat) == iter_para_forward(
                        t,
                        line as int,
                        (n - k) as nat,
                    ),
                decreases n - k,
            {
                line = para_forward(rope, line);
                k += 1;
            }
            proof {
                lemma_content_fits(t, line as nat, tabstop as nat);
            }
            let col = if is_blank_line(rope, line) {
                0
            } else {
                max_normal_col(rope, line, tabstop)
            };
            Some(outcome(Cursor::new(line, col), MotionKind::Exclusive))
        },
        _ => None,
    }
}

#[verifier::spinoff_prover]
#[verifier::rlimit(80)]
fn resolve_para_back(motion: Motion, count: Option<usize>, cursor: Cursor, ctx: &MotionCtx) -> (r: Option<
    MotionOutcome,
>)
    requires
        resolvable(motion, count, cursor, rope_text(*ctx.rope), ctx.tabstop as nat),
        motion is ParaBack,
    ensures
        r == spec_resolve(
            motion,
            count,
            cursor,
            rope_text(*ctx.rope),
            ctx.goal,
            ctx.last_find,
            ctx.tabstop as nat,
            ctx.for_operator,
        ),
        r matches Some(o) ==> cursor_ok(rope_text(*ctx.rope), o.cursor),
{
    let rope = ctx.rope;
    let ghost t = rope_text(*rope);
    let tabstop = ctx.tabstop;
    proof {
        lemma_text_lines_bound(t);
        crate::editing::rope::lemma_breaks_bound(t, t.len() as int);
        lemma_content_fits(t, cursor.line as nat, tabstop as nat);
        assert(t.len() <= usize::MAX / 4) by (nonlinear_arith)
            requires
                t.len() * (3 + tabstop) <= usize::MAX,
                tabstop >= 1,
        ;
    }
    let n: usize = match count {
        Some(c) => if c >= 1 {
            c
        } else {
            1
        },
        None => 1,
    };
    let last = text_lines(rope) - 1;
    let content = line_content(rope, cursor.line);
    let grs = line_graphemes(content.as_str(), tabstop);
    match motion {
        Motion::ParaBack => {
            let mut line = cursor.line;
            let ghost l0 = line as int;
            let mut k: usize = 0;
            while k < n
                invariant
                    k <= n,
                    t == rope_text(*rope),
                    line < line_count(t),
                    iter_para_back(t, l0, n as nat) == iter_para_back(t, line as int, (n - k) as nat),
                decreases n - k,
            {
                line = para_back(rope, line);
                k += 1;
            }
            Some(outcome(Cursor::new(line, 0), MotionKind::Exclusive))
        },
        _ => None,
    }
}

#[verifier::spinoff_prover]
#[verifier::rlimit(80)]
fn resolve_find(motion: Motion, count: Option<usize>, cursor: Cursor, ctx: &MotionCtx) -> (r: Option<
    MotionOutcome,
>)
    requires
        resolvable(motion, count, cursor, rope_text(*ctx.rope), ctx.tabstop as nat),
        motion is Find,
    ensures
        r == spec_resolve(
            motion,
            count,
            cursor,
            rope_text(*ctx.rope),
            ctx.goal,
            ctx.last_find,
            ctx.tabstop as nat,
            ctx.for_operator,
        ),
        r matches Some(o) ==> cursor_ok(rope_text(*ctx.rope), o.cursor),
{
    let rope = ctx.rope;
    let ghost t = rope_text(*rope);
    let tabstop = ctx.tabstop;
    proof {
        lemma_text_lines_bound(t);
        crate::editing::rope::lemma_breaks_bound(t, t.len() as int);
        lemma_content_fits(t, cursor.line as nat, tabstop as nat);
        assert(t.len() <= usize::MAX / 4) by (nonlinear_arith)
            requires
                t.len() * (3 + tabstop) <= usize::MAX,
                tabstop >= 1,
        ;
    }
    let n: usize = match count {
        Some(c) => if c >= 1 {
            c
        } else {
            1
        },
        None => 1,
    };
    let last = text_lines(rope) - 1;
    let content = line_content(rope, cursor.line);
    let grs = line_graphemes(content.as_str(), tabstop);
    match motion {
        Motion::Find { kind, ch } => {
            let chars = crate::chars::chars_of(content.as_str());
            match find_in_line(&chars, cursor.col, kind, ch, n, false) {
                Some(col) => {
                    let k = if kind == FindKind::To || kind == FindKind::Till {
                        MotionKind::Inclusive
                    } else {
                        MotionKind::Exclusive
                    };
                    Some(
                        MotionOutcome {
                            cursor: Cursor::new(cursor.line, col),
                            kind: k,
                            new_goal: None,
                            new_last_find: Some((kind, ch)),
                        },
                    )
                },
                None => None,
            }
        },
        _ => None,
    }
}

#[verifier::spinoff_prover]
#[verifier::rlimit(80)]
fn resolve_repeat_find(motion: Motion, count: Option<usize>, cursor: Cursor, ctx: &MotionCtx) -> (r: Option<
    MotionOutcome,
>)
    requires
        resolvable(motion, count, cursor, rope_text(*ctx.rope), ctx.tabstop as nat),
        motion is RepeatFind,
    ensures
        r == spec_resolve(
            motion,
            count,
            cursor,
            rope_text(*ctx.rope),
            ctx.goal,
            ctx.last_find,
            ctx.tabstop as nat,
            ctx.for_operator,
        ),
        r matches Some(o) ==> cursor_ok(rope_text(*ctx.rope), o.cursor),
{
    let rope = ctx.rope;
    let ghost t = rope_text(*rope);
    let tabstop = ctx.tabstop;
    proof {
        lemma_text_lines_bound(t);
        crate::editing::rope::lemma_breaks_bound(t, t.len() as int);
        lemma_content_fits(t, cursor.line as nat, tabstop as nat);
        assert(t.len() <= usize::MAX / 4) by (nonlinear_arith)
            requires
                t.len() * (3 + tabstop) <= usize::MAX,
                tabstop >= 1,
        ;
    }
    let n: usize = match count {
        Some(c) => if c >= 1 {
            c
        } else {
            1
        },
        None => 1,
    };
    let last = text_lines(rope) - 1;
    let content = line_content(rope, cursor.line);
    let grs = line_graphemes(content.as_str(), tabstop);
    match motion {
        Motion::RepeatFind => {
            let (kind, ch) = match ctx.last_find {
                Some(p) => p,
                None => {
                    return None;
                },
            };
            let chars = crate::chars::chars_of(content.as_str());
            match find_in_line(&chars, cursor.col, kind, ch, n, true) {
                Some(col) => {
                    let k = if kind == FindKind::To || kind == FindKind::Till {
                        MotionKind::Inclusive
                    } else {
                        MotionKind::Exclusive
                    };
                    Some(outcome(Cursor::new(cursor.line, col), k))
                },
                None => None,
            }
        },
        _ => None,
    }
}

#[verifier::spinoff_prover]
#[verifier::rlimit(80)]
fn resolve_repeat_find_rev(motion: Motion, count: Option<usize>, cursor: Cursor, ctx: &MotionCtx) -> (r: Option<
    MotionOutcome,
>)
    requires
        resolvable(motion, count, cursor, rope_text(*ctx.rope), ctx.tabstop as nat),
        motion is RepeatFindRev,
    ensures
        r == spec_resolve(
            motion,
            count,
            cursor,
            rope_text(*ctx.rope),
            ctx.goal,
            ctx.last_find,
            ctx.tabstop as nat,
            ctx.for_operator,
        ),
        r matches Some(o) ==> cursor_ok(rope_text(*ctx.rope), o.cursor),
{
    let rope = ctx.rope;
    let ghost t = rope_text(*rope);
    let tabstop = ctx.tabstop;
    proof {
        lemma_text_lines_bound(t);
        crate::editing::rope::lemma_breaks_bound(t, t.len() as int);
        lemma_content_fits(t, cursor.line as nat, tabstop as nat);
        assert(t.len() <= usize::MAX / 4) by (nonlinear_arith)
            requires
                t.len() * (3 + tabstop) <= usize::MAX,
                tabstop >= 1,
        ;
    }
    let n: usize = match count {
        Some(c) => if c >= 1 {
            c
        } else {
            1
        },
        None => 1,
    };
    let last = text_lines(rope) - 1;
    let content = line_content(rope, cursor.line);
    let grs = line_graphemes(content.as_str(), tabstop);
    match motion {
        Motion::RepeatFindRev => {
            let (kind, ch) = match ctx.last_find {
                Some(p) => p,
                None => {
                    return None;
                },
            };
            let rev = match kind {
                FindKind::To => FindKind::ToBack,
                FindKind::ToBack => FindKind::To,
                FindKind::Till => FindKind::TillBack,
                FindKind::TillBack => FindKind::Till,
            };
            let chars = crate::chars::chars_of(content.as_str());
            match find_in_line(&chars, cursor.col, rev, ch, n, true) {
                Some(col) => {
                    let k = if rev == FindKind::To || rev == FindKind::Till {
                        MotionKind::Inclusive
                    } else {
                        MotionKind::Exclusive
                    };
                    Some(outcome(Cursor::new(cursor.line, col), k))
                },
                None => None,
            }
        },
        _ => None,
    }
}

/// Resolves a motion from `cursor` (see [`spec_resolve`]).
pub fn resolve(motion: Motion, count: Option<usize>, cursor: Cursor, ctx: &MotionCtx) -> (r: Option<
    MotionOutcome,
>)
    requires
        resolvable(motion, count, cursor, rope_text(*ctx.rope), ctx.tabstop as nat),
    ensures
        r == spec_resolve(
            motion,
            count,
            cursor,
            rope_text(*ctx.rope),
            ctx.goal,
            ctx.last_find,
            ctx.tabstop as nat,
            ctx.for_operator,
        ),
        r matches Some(o) ==> cursor_ok(rope_text(*ctx.rope), o.cursor),
{
    match motion {
        Motion::Left => resolve_left(motion, count, cursor, ctx),
        Motion::Right => resolve_right(motion, count, cursor, ctx),
        Motion::Up | Motion::Down => resolve_vertical(motion, count, cursor, ctx),
        Motion::LineStart => resolve_line_start(motion, count, cursor, ctx),
        Motion::FirstNonBlank => resolve_first_non_blank(motion, count, cursor, ctx),
        Motion::LineEnd => resolve_line_end(motion, count, cursor, ctx),
        Motion::WordForward { .. } => resolve_word_forward(motion, count, cursor, ctx),
        Motion::WordBack { .. } => resolve_word_back(motion, count, cursor, ctx),
        Motion::WordEnd { .. } => resolve_word_end(motion, count, cursor, ctx),
        Motion::GotoFirst | Motion::GotoLast => resolve_goto(motion, count, cursor, ctx),
        Motion::ParaForward => resolve_para_forward(motion, count, cursor, ctx),
        Motion::ParaBack => resolve_para_back(motion, count, cursor, ctx),
        Motion::Find { .. } => resolve_find(motion, count, cursor, ctx),
        Motion::RepeatFind => resolve_repeat_find(motion, count, cursor, ctx),
        Motion::RepeatFindRev => resolve_repeat_find_rev(motion, count, cursor, ctx),
    }
}

} // verus!
