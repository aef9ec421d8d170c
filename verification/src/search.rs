//! Buffer search: one regex dialect (the `regex` crate), smartcase, and the
//! matches cached per buffer version for highlighting and `n`/`N`
//! navigation.

use vstd::prelude::*;

use regex::Regex;
use ropey::Rope;

use crate::chars::{
    chars_in_bytes, chars_of, chars_spanning, is_boundary, push_str, slice_vec, string_of,
    unicode_uppercase, utf8_size, utf8_size_of,
};
use crate::editing::rope::{rope_text, rope_to_string};

verus! {

/// Texts over 2MB are not searched (their matches stay empty).
pub const MAX_SEARCH_BYTES: usize = 2 * 1024 * 1024;

#[verifier::external_type_specification]
#[verifier::external_body]
pub struct ExRegex(Regex);

/// Whether `Regex::new` accepts a pattern: its syntax, and the default size
/// limit of the compiled program. A property of the pattern alone, named.
pub uninterp spec fn regex_compiles(src: Seq<char>) -> bool;

/// A compiled regex together with the pattern source it was compiled from.
/// The fields are private: a value is only made by [`regex_new`], so the
/// regex is always the one its source compiles to.
pub struct Pattern {
    regex: Regex,
    source: String,
}

impl View for Pattern {
    type V = Seq<char>;

    /// The source the regex was compiled from.
    closed spec fn view(&self) -> Seq<char> {
        self.source@
    }
}

/// The byte spans `Regex::find_iter` reports for the regex compiled from
/// `source` on `hay`: a function of the two, named, not restated.
pub uninterp spec fn regex_spans(source: Seq<char>, hay: Seq<char>) -> Seq<(usize, usize)>;

/// `Regex::new`, its error dropped: a pattern exactly when the source
/// compiles, holding that source.
#[verifier::external_body]
fn regex_new(src: &str) -> (r: Option<Pattern>)
    ensures
        r is Some <==> regex_compiles(src@),
        r matches Some(p) ==> p@ == src@,
{
    match Regex::new(src) {
        Ok(regex) => Some(Pattern { regex, source: src.to_string() }),
        Err(_) => None,
    }
}

/// `Regex::find_iter`, each match taken as its byte offsets: the spans the
/// pattern's source finds on the haystack (named), which as the crate
/// documents are successive non-overlapping matches, each inside the
/// haystack with `start <= end`, both on char boundaries.
#[verifier::external_body]
fn regex_find_iter(p: &Pattern, hay: &str) -> (spans: Vec<(usize, usize)>)
    ensures
        spans@ == regex_spans(p@, hay@),
        spans_ok(hay@, spans@),
{
    p.regex.find_iter(hay).map(|m| (m.start(), m.end())).collect()
}

/// Spans that `find_iter` can report on a haystack.
pub open spec fn spans_ok(hay: Seq<char>, spans: Seq<(usize, usize)>) -> bool {
    &&& forall|k: int|
        0 <= k < spans.len() ==> {
            &&& (#[trigger] spans[k]).0 <= spans[k].1 <= utf8_size(hay)
            &&& is_boundary(hay, spans[k].0 as int)
            &&& is_boundary(hay, spans[k].1 as int)
        }
    &&& forall|k1: int, k2: int| 0 <= k1 < k2 < spans.len() ==> spans[k1].1 <= spans[k2].0
}

#[derive(Debug, Clone, Copy, PartialEq, Eq, Structural)]
pub enum Direction {
    Forward,
    Backward,
}

impl Default for Direction {
    fn default() -> (d: Self)
        ensures
            d == Direction::Forward,
    {
        Direction::Forward
    }
}

/// One match: line, and char columns start and end (exclusive).
pub type Match = (usize, u32, u32);

/// The search state of the editor.
pub struct Search {
    pub pattern: String,
    pub direction: Direction,
    pub regex: Option<Pattern>,
    /// All matches in buffer order, recomputed when the buffer changes.
    pub matches: Vec<Match>,
    /// The buffer id and version the matches were computed for.
    pub version: Option<(usize, u64)>,
    /// Highlighting enabled (`:noh` and Esc clear it until the next search).
    pub highlight: bool,
}

impl Default for Search {
    fn default() -> (s: Self)
        ensures
            s.pattern@ == Seq::<char>::empty(),
            s.direction == Direction::Forward,
            s.regex is None,
            s.matches@ == Seq::<Match>::empty(),
            s.version is None,
            !s.highlight,
    {
        Search {
            pattern: String::new(),
            direction: Direction::Forward,
            regex: None,
            matches: Vec::new(),
            version: None,
            highlight: false,
        }
    }
}

/// smartcase: case-insensitive unless the pattern holds an uppercase letter.
pub open spec fn smartcase_source(p: Seq<char>) -> Seq<char> {
    if exists|i: int| 0 <= i < p.len() && unicode_uppercase(#[trigger] p[i]) {
        p
    } else {
        "(?i)"@ + p
    }
}

/// Law of smartcase: an uppercase char anywhere in the pattern makes the
/// search case-sensitive (the pattern is used as written); without one the
/// search ignores case (`(?i)` is put in front); the pattern is kept
/// unchanged exactly when one of its chars is uppercase.
pub proof fn lemma_smartcase_law(p: Seq<char>, k: int)
    ensures
        0 <= k < p.len() && unicode_uppercase(p[k]) ==> smartcase_source(p) == p,
        (forall|i: int| 0 <= i < p.len() ==> !unicode_uppercase(#[trigger] p[i])) ==> smartcase_source(p)
            == "(?i)"@ + p,
        (smartcase_source(p) == p) <==> (exists|i: int| 0 <= i < p.len() && unicode_uppercase(#[trigger] p[i])),
{
    reveal_strlit("(?i)");
    if 0 <= k < p.len() && unicode_uppercase(p[k]) {
        assert(exists|i: int| 0 <= i < p.len() && unicode_uppercase(#[trigger] p[i]));
    }
    if !(exists|i: int| 0 <= i < p.len() && unicode_uppercase(#[trigger] p[i])) {
        assert(("(?i)"@ + p).len() == p.len() + 4);
    }
}

/// Compiles a pattern with smartcase; `None` for the empty pattern or one
/// that does not compile.
pub fn compile(pattern: &str) -> (r: Option<Pattern>)
    ensures
        r is Some <==> pattern@.len() > 0 && regex_compiles(smartcase_source(pattern@)),
        r matches Some(p) ==> p@ == smartcase_source(pattern@),
{
    let v = chars_of(pattern);
    if v.len() == 0 {
        return None;
    }
    let mut sensitive = false;
    let mut i: usize = 0;
    while i < v.len()
        invariant
            v@ == pattern@,
            i <= v.len(),
            sensitive <==> exists|j: int| 0 <= j < i && unicode_uppercase(#[trigger] v@[j]),
        decreases v.len() - i,
    {
        if v[i].is_uppercase() {
            sensitive = true;
        }
        i = i + 1;
    }
    let mut src = String::new();
    if !sensitive {
        push_str(&mut src, "(?i)");
    }
    push_str(&mut src, pattern);
    assert(src@ == smartcase_source(pattern@));
    regex_new(src.as_str())
}

/// The text split at each `\n` (the piece after a final newline included),
/// scanning from `i` with the current piece starting at `start`.
pub open spec fn split_from(t: Seq<char>, i: int, start: int) -> Seq<Seq<char>>
    decreases t.len() - i,
{
    if i < 0 || i >= t.len() {
        seq![t.subrange(start, t.len() as int)]
    } else if t[i] == '\n' {
        seq![t.subrange(start, i)] + split_from(t, i + 1, i + 1)
    } else {
        split_from(t, i + 1, start)
    }
}

/// The text's `\n`-separated lines.
pub open spec fn split_lines(t: Seq<char>) -> Seq<Seq<char>> {
    split_from(t, 0, 0)
}

/// The matches of one line from the byte spans found on it: empty spans are
/// skipped, and offsets become char columns.
pub open spec fn spec_line_matches(line: usize, lc: Seq<char>, spans: Seq<(usize, usize)>) -> Seq<Match>
    decreases spans.len(),
{
    if spans.len() == 0 {
        seq![]
    } else {
        let (s, e) = spans.last();
        spec_line_matches(line, lc, spans.drop_last()) + if s == e {
            Seq::<Match>::empty()
        } else {
            seq![(line, chars_in_bytes(lc, s as int) as u32, chars_in_bytes(lc, e as int) as u32)]
        }
    }
}

/// The matches of the first `k` lines, each with its spans.
pub open spec fn all_matches(lines: Seq<Seq<char>>, spans: Seq<Seq<(usize, usize)>>, k: int) -> Seq<Match>
    decreases k,
{
    if k <= 0 {
        seq![]
    } else {
        all_matches(lines, spans, k - 1) + spec_line_matches(
            (k - 1) as usize,
            lines[k - 1],
            spans[k - 1],
        )
    }
}

/// The spans the pattern `source` finds on each of the text's lines.
pub open spec fn text_spans(source: Seq<char>, t: Seq<char>) -> Seq<Seq<(usize, usize)>> {
    let lines = split_lines(t);
    Seq::new(lines.len(), |k: int| regex_spans(source, lines[k]))
}

/// The matches of the pattern `source` on a text: those of each line, in
/// order.
pub open spec fn text_matches(source: Seq<char>, t: Seq<char>) -> Seq<Match> {
    let lines = split_lines(t);
    all_matches(lines, text_spans(source, t), lines.len() as int)
}

/// The matches of line `line` (whose text is `lc`) from byte spans found on
/// it: empty spans are skipped, offsets become char columns.
pub fn line_matches(line: usize, lc: &str, spans: &[(usize, usize)]) -> (out: Vec<Match>)
    requires
        utf8_size(lc@) <= u32::MAX,
        spans_ok(lc@, spans@),
    ensures
        out@ == spec_line_matches(line, lc@, spans@),
{
    let v = chars_of(lc);
    let mut out: Vec<Match> = Vec::new();
    let mut k: usize = 0;
    while k < spans.len()
        invariant
            v@ == lc@,
            utf8_size(lc@) <= u32::MAX,
            spans_ok(lc@, spans@),
            k <= spans.len(),
            out@ == spec_line_matches(line, lc@, spans@.take(k as int)),
        decreases spans.len() - k,
    {
        let (s, e) = spans[k];
        assert(spans@.take(k + 1).drop_last() =~= spans@.take(k as int));
        if s != e {
            let a = chars_spanning(v.as_slice(), s as u128);
            let b = chars_spanning(v.as_slice(), e as u128);
            proof {
                lemma_chars_le_bytes(lc@, a as int);
                lemma_chars_le_bytes(lc@, b as int);
            }
            out.push((line, a as u32, b as u32));
        }
        k = k + 1;
    }
    assert(spans@.take(spans@.len() as int) =~= spans@);
    out
}

/// A prefix of `k` chars takes at least `k` bytes and at most the whole.
proof fn lemma_chars_le_bytes(s: Seq<char>, k: int)
    requires
        0 <= k <= s.len(),
    ensures
        k <= utf8_size(s.take(k)) <= utf8_size(s),
    decreases k,
{
    if k > 0 {
        crate::chars::lemma_utf8_size_take(s, k - 1);
        lemma_chars_le_bytes(s, k - 1);
    }
    if k < s.len() {
        crate::chars::lemma_utf8_size_mono(s, k, s.len() as int);
        assert(s.take(s.len() as int) =~= s);
    }
}

/// Strictly after `(line, col)` in buffer order.
pub open spec fn after(m: Match, line: usize, col: u32) -> bool {
    m.0 > line || (m.0 == line && m.1 > col)
}

/// Strictly before `(line, col)` in buffer order.
pub open spec fn before(m: Match, line: usize, col: u32) -> bool {
    m.0 < line || (m.0 == line && m.1 < col)
}

/// At or after `(line, col)` in buffer order.
pub open spec fn at_or_after(m: Match, line: usize, col: u32) -> bool {
    m.0 > line || (m.0 == line && m.1 >= col)
}

/// Index of the first match from `i` on that starts after `(line, col)`.
pub open spec fn first_after(ms: Seq<Match>, line: usize, col: u32, i: int) -> Option<int>
    decreases ms.len() - i,
{
    if i < 0 || i >= ms.len() {
        None
    } else if after(ms[i], line, col) {
        Some(i)
    } else {
        first_after(ms, line, col, i + 1)
    }
}

/// Index of the first match from `i` on that starts at or after
/// `(line, col)`.
pub open spec fn first_from(ms: Seq<Match>, line: usize, col: u32, i: int) -> Option<int>
    decreases ms.len() - i,
{
    if i < 0 || i >= ms.len() {
        None
    } else if at_or_after(ms[i], line, col) {
        Some(i)
    } else {
        first_from(ms, line, col, i + 1)
    }
}

/// Index of the last match among the first `k` that starts before
/// `(line, col)`.
pub open spec fn last_before(ms: Seq<Match>, line: usize, col: u32, k: int) -> Option<int>
    decreases k,
{
    if k <= 0 || k > ms.len() {
        None
    } else if before(ms[k - 1], line, col) {
        Some(k - 1)
    } else {
        last_before(ms, line, col, k - 1)
    }
}

/// Index of the first match from `i` on that covers `(line, col)`.
pub open spec fn first_covering(ms: Seq<Match>, line: usize, col: u32, i: int) -> Option<int>
    decreases ms.len() - i,
{
    if i < 0 || i >= ms.len() {
        None
    } else if ms[i].0 == line && ms[i].1 <= col && col < ms[i].2 {
        Some(i)
    } else {
        first_covering(ms, line, col, i + 1)
    }
}

/// The columns of the matches on one line, among the first `k` matches.
pub open spec fn on_line(ms: Seq<Match>, line: usize, k: int) -> Seq<(u32, u32)>
    decreases k,
{
    if k <= 0 || k > ms.len() {
        seq![]
    } else {
        on_line(ms, line, k - 1) + if ms[k - 1].0 == line {
            seq![(ms[k - 1].1, ms[k - 1].2)]
        } else {
            Seq::<(u32, u32)>::empty()
        }
    }
}

/// The first match after `(line, col)`, wrapping to the first one.
pub open spec fn spec_next_after(ms: Seq<Match>, line: usize, col: u32) -> Option<(Match, bool)> {
    if ms.len() == 0 {
        None
    } else {
        match first_after(ms, line, col, 0) {
            Some(i) => Some((ms[i], false)),
            None => Some((ms[0], true)),
        }
    }
}

/// The last match before `(line, col)`, wrapping to the last one.
pub open spec fn spec_prev_before(ms: Seq<Match>, line: usize, col: u32) -> Option<(Match, bool)> {
    if ms.len() == 0 {
        None
    } else {
        match last_before(ms, line, col, ms.len() as int) {
            Some(i) => Some((ms[i], false)),
            None => Some((ms.last(), true)),
        }
    }
}

/// The first match at or after `(line, col)`, wrapping to the first one.
pub open spec fn spec_next_from(ms: Seq<Match>, line: usize, col: u32) -> Option<(Match, bool)> {
    if ms.len() == 0 {
        None
    } else {
        match first_from(ms, line, col, 0) {
            Some(i) => Some((ms[i], false)),
            None => Some((ms[0], true)),
        }
    }
}

proof fn lemma_first_after(ms: Seq<Match>, line: usize, col: u32, i: int)
    requires
        0 <= i,
    ensures
        first_after(ms, line, col, i) matches Some(k) ==> i <= k < ms.len(),
    decreases ms.len() - i,
{
    if i < ms.len() && !after(ms[i], line, col) {
        lemma_first_after(ms, line, col, i + 1);
    }
}

proof fn lemma_first_from(ms: Seq<Match>, line: usize, col: u32, i: int)
    requires
        0 <= i,
    ensures
        first_from(ms, line, col, i) matches Some(k) ==> i <= k < ms.len(),
    decreases ms.len() - i,
{
    if i < ms.len() && !at_or_after(ms[i], line, col) {
        lemma_first_from(ms, line, col, i + 1);
    }
}

proof fn lemma_last_before(ms: Seq<Match>, line: usize, col: u32, k: int)
    ensures
        last_before(ms, line, col, k) matches Some(j) ==> 0 <= j < k && j < ms.len(),
    decreases k,
{
    if 0 < k <= ms.len() && !before(ms[k - 1], line, col) {
        lemma_last_before(ms, line, col, k - 1);
    }
}

proof fn lemma_first_after_none(ms: Seq<Match>, line: usize, col: u32, i: int)
    requires
        0 <= i,
    ensures
        first_after(ms, line, col, i) is None ==> forall|j: int| i <= j < ms.len() ==> !after(#[trigger] ms[j], line, col),
        first_after(ms, line, col, i) matches Some(k) ==> after(ms[k], line, col) && forall|j: int|
            i <= j < k ==> !after(#[trigger] ms[j], line, col),
    decreases ms.len() - i,
{
    if i < ms.len() && !after(ms[i], line, col) {
        lemma_first_after_none(ms, line, col, i + 1);
    }
}

proof fn lemma_last_before_none(ms: Seq<Match>, line: usize, col: u32, k: int)
    requires
        k <= ms.len(),
    ensures
        last_before(ms, line, col, k) is None ==> forall|j: int| 0 <= j < k ==> !before(#[trigger] ms[j], line, col),
        last_before(ms, line, col, k) matches Some(x) ==> before(ms[x], line, col) && forall|j: int|
            x < j < k ==> !before(#[trigger] ms[j], line, col),
    decreases k,
{
    if 0 < k && !before(ms[k - 1], line, col) {
        lemma_last_before_none(ms, line, col, k - 1);
    }
}

/// Law: `n` goes to the first match (in buffer order) strictly after the
/// position, wrapping to the very first match (and saying so) exactly when
/// none is after it; `N` goes to the last match strictly before, wrapping to
/// the very last exactly when none is before. With no matches both give
/// nothing.
pub proof fn lemma_navigation(ms: Seq<Match>, line: usize, col: u32)
    ensures
        spec_next_after(ms, line, col) is None <==> ms.len() == 0,
        spec_prev_before(ms, line, col) is None <==> ms.len() == 0,
        spec_next_after(ms, line, col) matches Some((m, wrapped)) ==> {
            &&& wrapped <==> forall|j: int| 0 <= j < ms.len() ==> !after(#[trigger] ms[j], line, col)
            &&& wrapped ==> m == ms[0]
            &&& !wrapped ==> exists|k: int|
                0 <= k < ms.len() && ms[k] == m && after(m, line, col) && forall|j: int|
                    0 <= j < k ==> !after(#[trigger] ms[j], line, col)
        },
        spec_prev_before(ms, line, col) matches Some((m, wrapped)) ==> {
            &&& wrapped <==> forall|j: int| 0 <= j < ms.len() ==> !before(#[trigger] ms[j], line, col)
            &&& wrapped ==> m == ms.last()
            &&& !wrapped ==> exists|k: int|
                0 <= k < ms.len() && ms[k] == m && before(m, line, col) && forall|j: int|
                    k < j < ms.len() ==> !before(#[trigger] ms[j], line, col)
        },
{
    lemma_first_after(ms, line, col, 0);
    lemma_first_after_none(ms, line, col, 0);
    lemma_last_before(ms, line, col, ms.len() as int);
    lemma_last_before_none(ms, line, col, ms.len() as int);
    if ms.len() > 0 {
        if let Some(k) = first_after(ms, line, col, 0) {
            assert(!forall|j: int| 0 <= j < ms.len() ==> !after(#[trigger] ms[j], line, col)) by {
                assert(after(ms[k], line, col));
            }
        }
        if let Some(k) = last_before(ms, line, col, ms.len() as int) {
            assert(!forall|j: int| 0 <= j < ms.len() ==> !before(#[trigger] ms[j], line, col)) by {
                assert(before(ms[k], line, col));
            }
        }
    }
}

/// Match `a` starts no later than match `b` in buffer order.
pub open spec fn no_later(a: Match, b: Match) -> bool {
    a.0 < b.0 || (a.0 == b.0 && a.1 <= b.1)
}

/// Matches listed in buffer order.
pub open spec fn in_order(ms: Seq<Match>) -> bool {
    forall|i: int, j: int| 0 <= i < j < ms.len() ==> no_later(#[trigger] ms[i], #[trigger] ms[j])
}

/// Law: on matches listed in buffer order, `n` goes to the nearest match
/// after the position (none after it starts earlier), and wraps to the
/// match that starts first in the buffer.
pub proof fn lemma_next_after_nearest(ms: Seq<Match>, line: usize, col: u32)
    requires
        in_order(ms),
    ensures
        spec_next_after(ms, line, col) matches Some((m, wrapped)) ==> {
            &&& !wrapped ==> after(m, line, col) && forall|j: int|
                0 <= j < ms.len() && after(#[trigger] ms[j], line, col) ==> no_later(m, ms[j])
            &&& wrapped ==> forall|j: int| 0 <= j < ms.len() ==> no_later(m, #[trigger] ms[j])
        },
{
    lemma_navigation(ms, line, col);
    lemma_first_after(ms, line, col, 0);
    if let Some((m, wrapped)) = spec_next_after(ms, line, col) {
        if !wrapped {
            let k = choose|k: int|
                0 <= k < ms.len() && ms[k] == m && after(m, line, col) && forall|j: int|
                    0 <= j < k ==> !after(#[trigger] ms[j], line, col);
            assert forall|j: int| 0 <= j < ms.len() && after(#[trigger] ms[j], line, col) implies no_later(
                m,
                ms[j],
            ) by {
                if j < k {
                } else if j > k {
                    assert(no_later(ms[k], ms[j]));
                }
            };
        } else {
            assert forall|j: int| 0 <= j < ms.len() implies no_later(m, #[trigger] ms[j]) by {
                if j > 0 {
                    assert(no_later(ms[0], ms[j]));
                }
            };
        }
    }
}

/// Law: on matches listed in buffer order, `N` goes to the nearest match
/// before the position (none before it starts later), and wraps to the
/// match that starts last in the buffer.
pub proof fn lemma_prev_before_nearest(ms: Seq<Match>, line: usize, col: u32)
    requires
        in_order(ms),
    ensures
        spec_prev_before(ms, line, col) matches Some((m, wrapped)) ==> {
            &&& !wrapped ==> before(m, line, col) && forall|j: int|
                0 <= j < ms.len() && before(#[trigger] ms[j], line, col) ==> no_later(ms[j], m)
            &&& wrapped ==> forall|j: int| 0 <= j < ms.len() ==> no_later(#[trigger] ms[j], m)
        },
{
    lemma_navigation(ms, line, col);
    if let Some((m, wrapped)) = spec_prev_before(ms, line, col) {
        if !wrapped {
            let k = choose|k: int|
                0 <= k < ms.len() && ms[k] == m && before(m, line, col) && forall|j: int|
                    k < j < ms.len() ==> !before(#[trigger] ms[j], line, col);
            assert forall|j: int| 0 <= j < ms.len() && before(#[trigger] ms[j], line, col) implies no_later(
                ms[j],
                m,
            ) by {
                if j < k {
                    assert(no_later(ms[j], ms[k]));
                }
            };
        } else {
            assert forall|j: int| 0 <= j < ms.len() implies no_later(#[trigger] ms[j], m) by {
                if j < ms.len() - 1 {
                    assert(no_later(ms[j], ms[ms.len() - 1]));
                }
            };
        }
    }
}

/// Char counts at byte boundaries grow with the byte count.
proof fn lemma_cib_mono(s: Seq<char>, b1: int, b2: int)
    requires
        crate::chars::is_boundary(s, b1),
        crate::chars::is_boundary(s, b2),
        b1 <= b2,
    ensures
        0 <= chars_in_bytes(s, b1) <= chars_in_bytes(s, b2) <= s.len(),
{
    let k1 = chars_in_bytes(s, b1);
    let k2 = chars_in_bytes(s, b2);
    if k1 > k2 {
        crate::chars::lemma_utf8_size_mono(s, k2, k1);
    }
}

/// The matches of a line come in order, all on that line, each starting no
/// later than the char count of the last span's end.
proof fn lemma_line_matches_in_order(line: usize, lc: Seq<char>, spans: Seq<(usize, usize)>)
    requires
        spans_ok(lc, spans),
        utf8_size(lc) <= u32::MAX,
    ensures
        in_order(spec_line_matches(line, lc, spans)),
        forall|i: int|
            0 <= i < spec_line_matches(line, lc, spans).len() ==> (#[trigger] spec_line_matches(
                line,
                lc,
                spans,
            )[i]).0 == line,
        spans.len() > 0 ==> forall|i: int|
            0 <= i < spec_line_matches(line, lc, spans).len() ==> (#[trigger] spec_line_matches(
                line,
                lc,
                spans,
            )[i]).1 <= chars_in_bytes(lc, spans.last().1 as int),
    decreases spans.len(),
{
    if spans.len() > 0 {
        let pre = spans.drop_last();
        assert(spans_ok(lc, pre)) by {
            assert forall|k: int| 0 <= k < pre.len() implies pre[k] == spans[k] by {};
        };
        lemma_line_matches_in_order(line, lc, pre);
        let (s0, e0) = spans.last();
        let a = spec_line_matches(line, lc, pre);
        let all = spec_line_matches(line, lc, spans);
        lemma_chars_le_bytes(lc, lc.len() as int);
        assert(lc.take(lc.len() as int) =~= lc);
        assert(spans[spans.len() - 1] == spans.last());
        lemma_cib_mono(lc, s0 as int, e0 as int);
        if pre.len() > 0 {
            assert(pre.last() == spans[spans.len() - 2]);
            lemma_cib_mono(lc, pre.last().1 as int, s0 as int);
        }
        if s0 != e0 {
            assert(all == a.push((line, chars_in_bytes(lc, s0 as int) as u32, chars_in_bytes(lc, e0 as int) as u32)));
            assert forall|i: int, j: int| 0 <= i < j < all.len() implies no_later(#[trigger] all[i], #[trigger] all[j]) by {
                if j < a.len() {
                    assert(all[i] == a[i] && all[j] == a[j]);
                } else {
                    assert(all[i] == a[i]);
                }
            };
            assert forall|i: int| 0 <= i < all.len() implies (#[trigger] all[i]).1 <= chars_in_bytes(lc, e0 as int) by {
                if i < a.len() {
                    assert(all[i] == a[i]);
                }
            };
        } else {
            assert(all =~= a);
        }
    }
}

/// The matches of the first `k` lines come in order, on lines below `k`.
proof fn lemma_all_matches_in_order(lines: Seq<Seq<char>>, spans: Seq<Seq<(usize, usize)>>, k: int)
    requires
        0 <= k <= lines.len(),
        k <= spans.len(),
        k <= usize::MAX,
        forall|j: int| 0 <= j < k ==> spans_ok(lines[j], #[trigger] spans[j]),
        forall|j: int| 0 <= j < k ==> utf8_size(#[trigger] lines[j]) <= u32::MAX,
    ensures
        in_order(all_matches(lines, spans, k)),
        forall|i: int| 0 <= i < all_matches(lines, spans, k).len() ==> (#[trigger] all_matches(lines, spans, k)[i]).0 < k,
    decreases k,
{
    if k > 0 {
        lemma_all_matches_in_order(lines, spans, k - 1);
        let a = all_matches(lines, spans, k - 1);
        let b = spec_line_matches((k - 1) as usize, lines[k - 1], spans[k - 1]);
        lemma_line_matches_in_order((k - 1) as usize, lines[k - 1], spans[k - 1]);
        let all = all_matches(lines, spans, k);
        assert(all == a + b);
        assert forall|i: int, j: int| 0 <= i < j < all.len() implies no_later(#[trigger] all[i], #[trigger] all[j]) by {
            if j < a.len() {
                assert(all[i] == a[i] && all[j] == a[j]);
            } else if i < a.len() {
                assert(all[i] == a[i] && all[j] == b[j - a.len()]);
            } else {
                assert(all[i] == b[i - a.len()] && all[j] == b[j - a.len()]);
            }
        };
        assert forall|i: int| 0 <= i < all.len() implies (#[trigger] all[i]).0 < k by {
            if i < a.len() {
                assert(all[i] == a[i]);
            } else {
                assert(all[i] == b[i - a.len()]);
            }
        };
    }
}

impl Search {
    /// Sets a new pattern (compiling it) and turns highlighting on; the
    /// matches are recomputed at the next [`Search::ensure`]. Returns
    /// whether the pattern compiled.
    pub fn set_pattern(&mut self, pattern: &str, direction: Direction) -> (ok: bool)
        ensures
            final(self).pattern@ == pattern@,
            final(self).direction == direction,
            final(self).regex is Some <==> pattern@.len() > 0 && regex_compiles(
                smartcase_source(pattern@),
            ),
            final(self).version is None,
            final(self).highlight,
            final(self).matches@ == old(self).matches@,
            ok == final(self).regex is Some,
    {
        self.pattern = string_of(chars_of(pattern).as_slice());
        self.direction = direction;
        self.regex = compile(pattern);
        self.version = None;
        self.highlight = true;
        match &self.regex {
            Some(_) => true,
            None => false,
        }
    }

    /// Whether a pattern is set and compiled.
    pub fn is_active(&self) -> (b: bool)
        ensures
            b == self.regex is Some,
    {
        match &self.regex {
            Some(_) => true,
            None => false,
        }
    }

    /// Recomputes the matches when the buffer (id or version) changed:
    /// none without a regex or for a text over [`MAX_SEARCH_BYTES`], else
    /// the matches of each line in order.
    pub fn ensure(&mut self, rope: &Rope, buf: usize, version: u64)
        ensures
            old(self).version == Some((buf, version)) ==> *final(self) == *old(self),
            old(self).version != Some((buf, version)) ==> {
                &&& final(self).version == Some((buf, version))
                &&& final(self).pattern == old(self).pattern
                &&& final(self).direction == old(self).direction
                &&& final(self).regex == old(self).regex
                &&& final(self).highlight == old(self).highlight
                &&& (old(self).regex is None || utf8_size(rope_text(*rope)) > MAX_SEARCH_BYTES)
                    ==> final(self).matches@ == Seq::<Match>::empty()
                &&& (old(self).regex is Some && utf8_size(rope_text(*rope)) <= MAX_SEARCH_BYTES)
                    ==> final(self).matches@ == text_matches(old(self).regex->0@, rope_text(*rope))
                &&& in_order(final(self).matches@)
            },
    {
        if self.version == Some((buf, version)) {
            return;
        }
        self.version = Some((buf, version));
        self.matches = Vec::new();
        let re = match &self.regex {
            None => {
                return;
            },
            Some(re) => re,
        };
        let text = rope_to_string(rope);
        let v = chars_of(text.as_str());
        let ghost t = v@;
        if utf8_size_of(v.as_slice()) > MAX_SEARCH_BYTES as u128 {
            return;
        }
        let ghost lines = split_lines(t);
        proof {
            lemma_chars_le_bytes(t, t.len() as int);
            assert(t.take(t.len() as int) =~= t);
        }
        let ghost mut all_spans: Seq<Seq<(usize, usize)>> = seq![];
        let mut out: Vec<Match> = Vec::new();
        let mut line_idx: usize = 0;
        let mut start: usize = 0;
        let mut i: usize = 0;
        while i <= v.len()
            invariant
                v@ == t,
                lines == split_lines(t),
                utf8_size(t) <= MAX_SEARCH_BYTES,
                start <= i <= v.len() + 1,
                i <= v.len() ==> start <= i,
                line_idx == all_spans.len(),
                v.len() <= MAX_SEARCH_BYTES,
                i <= v.len() ==> split_from(t, i as int, start as int) == lines.skip(line_idx as int),
                line_idx <= lines.len(),
                line_idx <= i,
                forall|k: int| 0 <= k < line_idx ==> spans_ok(lines[k], #[trigger] all_spans[k]),
                forall|k: int| 0 <= k < line_idx ==> #[trigger] all_spans[k] == regex_spans(re@, lines[k]),
                forall|k: int| 0 <= k < line_idx ==> utf8_size(#[trigger] lines[k]) <= u32::MAX,
                out@ == all_matches(lines, all_spans, line_idx as int),
                i > v.len() ==> line_idx == lines.len(),
            decreases v.len() + 1 - i,
        {
            if i == v.len() || v[i] == '\n' {
                let piece = slice_vec(v.as_slice(), start, i);
                let line = string_of(piece.as_slice());
                proof {
                    lemma_split_len(t, i as int, start as int);
                    lemma_split_step(t, i as int, start as int);
                    lemma_piece_size(t, start as int, i as int);
                    let rest = lines.skip(line_idx as int);
                    assert(rest[0] == t.subrange(start as int, i as int));
                    assert(lines[line_idx as int] == t.subrange(start as int, i as int));
                    if (i as int) < t.len() {
                        assert(lines.skip(line_idx + 1) =~= rest.skip(1));
                        assert(rest.skip(1) =~= split_from(t, i + 1, i + 1));
                    } else {
                        assert(rest.len() == 1);
                    }
                }
                let spans = regex_find_iter(re, line.as_str());
                let mut found = line_matches(line_idx, line.as_str(), spans.as_slice());
                proof {
                    let before = all_spans;
                    all_spans = all_spans.push(spans@);
                    assert(all_spans.drop_last() =~= before);
                    lemma_all_matches_prefix(lines, all_spans, line_idx as int);
                }
                out.append(&mut found);
                line_idx = line_idx + 1;
                start = i + 1;
            }
            i = i + 1;
        }
        proof {
            assert(all_spans =~= text_spans(re@, t));
            lemma_all_matches_in_order(lines, all_spans, line_idx as int);
        }
        self.matches = out;
    }

    /// The columns of the matches on a line, in order.
    pub fn matches_on_line(&self, line: usize) -> (r: Vec<(u32, u32)>)
        ensures
            r@ == on_line(self.matches@, line, self.matches@.len() as int),
    {
        let mut r: Vec<(u32, u32)> = Vec::new();
        let mut k: usize = 0;
        while k < self.matches.len()
            invariant
                k <= self.matches@.len(),
                r@ == on_line(self.matches@, line, k as int),
            decreases self.matches@.len() - k,
        {
            let m = self.matches[k];
            if m.0 == line {
                r.push((m.1, m.2));
            }
            k = k + 1;
        }
        r
    }

    /// Number of matches.
    pub fn count(&self) -> (n: usize)
        ensures
            n == self.matches@.len(),
    {
        self.matches.len()
    }

    /// First match strictly after `(line, col)`, wrapping; also reports the
    /// wrap.
    pub fn next_after(&self, line: usize, col: u32) -> (r: Option<(Match, bool)>)
        ensures
            r == spec_next_after(self.matches@, line, col),
    {
        let ms = &self.matches;
        if ms.len() == 0 {
            return None;
        }
        let mut i: usize = 0;
        while i < ms.len()
            invariant
                i <= ms@.len(),
                ms@ == self.matches@,
                first_after(ms@, line, col, i as int) == first_after(ms@, line, col, 0),
            decreases ms@.len() - i,
        {
            let m = ms[i];
            if m.0 > line || (m.0 == line && m.1 > col) {
                return Some((m, false));
            }
            i = i + 1;
        }
        Some((ms[0], true))
    }

    /// Last match strictly before `(line, col)`, wrapping backward.
    pub fn prev_before(&self, line: usize, col: u32) -> (r: Option<(Match, bool)>)
        ensures
            r == spec_prev_before(self.matches@, line, col),
    {
        let ms = &self.matches;
        if ms.len() == 0 {
            return None;
        }
        let mut k: usize = ms.len();
        while k > 0
            invariant
                k <= ms@.len(),
                ms@.len() > 0,
                ms@ == self.matches@,
                last_before(ms@, line, col, k as int) == last_before(ms@, line, col, ms@.len() as int),
            decreases k,
        {
            let m = ms[k - 1];
            if m.0 < line || (m.0 == line && m.1 < col) {
                return Some((m, false));
            }
            k = k - 1;
        }
        Some((ms[ms.len() - 1], true))
    }

    /// Match at or after `(line, col)` (to land on a match under the
    /// cursor), wrapping.
    pub fn next_from(&self, line: usize, col: u32) -> (r: Option<(Match, bool)>)
        ensures
            r == spec_next_from(self.matches@, line, col),
    {
        let ms = &self.matches;
        if ms.len() == 0 {
            return None;
        }
        let mut i: usize = 0;
        while i < ms.len()
            invariant
                i <= ms@.len(),
                ms@ == self.matches@,
                first_from(ms@, line, col, i as int) == first_from(ms@, line, col, 0),
            decreases ms@.len() - i,
        {
            let m = ms[i];
            if m.0 > line || (m.0 == line && m.1 >= col) {
                return Some((m, false));
            }
            i = i + 1;
        }
        Some((ms[0], true))
    }

    /// The match covering `(line, col)`, for current-match highlighting.
    pub fn match_at(&self, line: usize, col: u32) -> (r: Option<(u32, u32)>)
        ensures
            r == (match first_covering(self.matches@, line, col, 0) {
                Some(i) => Some((self.matches@[i].1, self.matches@[i].2)),
                None => None,
            }),
    {
        let ms = &self.matches;
        let mut i: usize = 0;
        while i < ms.len()
            invariant
                i <= ms@.len(),
                ms@ == self.matches@,
                first_covering(ms@, line, col, i as int) == first_covering(ms@, line, col, 0),
            decreases ms@.len() - i,
        {
            let m = ms[i];
            if m.0 == line && m.1 <= col && col < m.2 {
                return Some((m.1, m.2));
            }
            i = i + 1;
        }
        None
    }
}

/// One step of the line split: at a break (or the end) the piece
/// `start..i` is the next line.
proof fn lemma_split_step(t: Seq<char>, i: int, start: int)
    requires
        0 <= start <= i <= t.len(),
        i == t.len() || t[i] == '\n',
    ensures
        split_from(t, i, start) == (if i == t.len() {
            seq![t.subrange(start, i)]
        } else {
            seq![t.subrange(start, i)] + split_from(t, i + 1, i + 1)
        }),
{
}

/// A split has at least one piece.
proof fn lemma_split_len(t: Seq<char>, i: int, start: int)
    ensures
        split_from(t, i, start).len() >= 1,
    decreases t.len() - i,
{
    if 0 <= i < t.len() {
        lemma_split_len(t, i + 1, if t[i] == '\n' {
            i + 1
        } else {
            start
        });
    }
}

/// A piece of the text is no bigger, in bytes, than the text.
proof fn lemma_piece_size(t: Seq<char>, a: int, b: int)
    requires
        0 <= a <= b <= t.len(),
    ensures
        utf8_size(t.subrange(a, b)) <= utf8_size(t),
{
    assert(t =~= t.take(a) + t.subrange(a, b) + t.skip(b));
    lemma_utf8_size_concat(t.take(a) + t.subrange(a, b), t.skip(b));
    lemma_utf8_size_concat(t.take(a), t.subrange(a, b));
}

/// Bytes of a concatenation add up.
pub proof fn lemma_utf8_size_concat(x: Seq<char>, y: Seq<char>)
    ensures
        utf8_size(x + y) == utf8_size(x) + utf8_size(y),
    decreases y.len(),
{
    if y.len() == 0 {
        assert(x + y =~= x);
    } else {
        lemma_utf8_size_concat(x, y.drop_last());
        assert((x + y).drop_last() =~= x + y.drop_last());
        assert((x + y).last() == y.last());
    }
}

/// The matches of the first `k` lines depend on the first `k` spans only.
proof fn lemma_all_matches_same(lines: Seq<Seq<char>>, s1: Seq<Seq<(usize, usize)>>, s2: Seq<Seq<(usize, usize)>>, k: int)
    requires
        0 <= k <= s1.len(),
        k <= s2.len(),
        forall|j: int| 0 <= j < k ==> s1[j] == s2[j],
    ensures
        all_matches(lines, s1, k) == all_matches(lines, s2, k),
    decreases k,
{
    if k > 0 {
        lemma_all_matches_same(lines, s1, s2, k - 1);
    }
}

/// Adding the spans of line `k` extends the matches by that line's.
proof fn lemma_all_matches_prefix(lines: Seq<Seq<char>>, spans: Seq<Seq<(usize, usize)>>, k: int)
    requires
        0 <= k,
        spans.len() == k + 1,
    ensures
        all_matches(lines, spans, k + 1) == all_matches(lines, spans.drop_last(), k)
            + spec_line_matches(k as usize, lines[k], spans[k]),
{
    lemma_all_matches_same(lines, spans, spans.drop_last(), k);
}

} // verus!
