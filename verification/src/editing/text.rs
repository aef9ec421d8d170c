//! Grapheme- and width-aware line geometry: char classes for word motions,
//! the grapheme clusters of a line with their display cells, and soft
//! wrapping of a line into rows.
//!
//! Only LF line endings are supported.

use unicode_segmentation::UnicodeSegmentation;
use unicode_width::UnicodeWidthStr;
use vstd::prelude::*;

use crate::chars::{chars_of, spec_is_whitespace, unicode_alphanumeric};

verus! {

/// Word-motion class of a char.
#[derive(Debug, Clone, Copy, PartialEq, Eq, Structural)]
pub enum CharClass {
    Blank,
    Word,
    Punct,
    /// CJK scripts form their own word classes, like vim's utf_class: a run of
    /// kanji and a run of latin are separate small words.
    Script(u8),
}

/// The CJK script a char belongs to, if any.
pub open spec fn spec_script_class(c: char) -> Option<u8> {
    let u = c as u32;
    if 0x3040 <= u <= 0x309F {
        Some(1u8)
    } else if 0x30A0 <= u <= 0x30FF {
        Some(2u8)
    } else if (0x3400 <= u <= 0x4DBF) || (0x4E00 <= u <= 0x9FFF) || (0xF900 <= u <= 0xFAFF) || (
    0x20000 <= u <= 0x2FA1F) {
        Some(3u8)
    } else if 0xAC00 <= u <= 0xD7A3 {
        Some(4u8)
    } else {
        None
    }
}

fn script_class(c: char) -> (r: Option<u8>)
    ensures
        r == spec_script_class(c),
{
    let u = c as u32;
    if 0x3040 <= u && u <= 0x309F {
        Some(1)
    } else if 0x30A0 <= u && u <= 0x30FF {
        Some(2)
    } else if (0x3400 <= u && u <= 0x4DBF) || (0x4E00 <= u && u <= 0x9FFF) || (0xF900 <= u && u
        <= 0xFAFF) || (0x20000 <= u && u <= 0x2FA1F) {
        Some(3)
    } else if 0xAC00 <= u && u <= 0xD7A3 {
        Some(4)
    } else {
        None
    }
}

pub open spec fn spec_char_class(c: char, big: bool) -> CharClass {
    if spec_is_whitespace(c) {
        CharClass::Blank
    } else if big {
        CharClass::Word
    } else if spec_script_class(c) is Some {
        CharClass::Script(spec_script_class(c)->0)
    } else if unicode_alphanumeric(c) || c == '_' {
        CharClass::Word
    } else {
        CharClass::Punct
    }
}

/// Law of the word classes: whitespace and only whitespace is blank; for
/// `W`/`B`/`E` every other char is of one class; for `w`/`b`/`e`, outside
/// the CJK scripts, letters, digits and `_` form the word class and every
/// other non-blank char is punctuation.
pub proof fn lemma_char_class_law(c: char, d: char, big: bool)
    ensures
        (spec_char_class(c, big) == CharClass::Blank) <==> spec_is_whitespace(c),
        !spec_is_whitespace(c) && !spec_is_whitespace(d) ==> spec_char_class(c, true) == spec_char_class(d, true),
        (c as u32) < 0x3040 && !spec_is_whitespace(c) ==> ((spec_char_class(c, false) == CharClass::Word) <==> (
        unicode_alphanumeric(c) || c == '_')),
        (c as u32) < 0x3040 && !spec_is_whitespace(c) ==> ((spec_char_class(c, false) == CharClass::Punct) <==> !(
        unicode_alphanumeric(c) || c == '_')),
{
}

/// The word class of a char; `big` merges every non-blank into one class.
pub fn char_class(c: char, big: bool) -> (r: CharClass)
    ensures
        r == spec_char_class(c, big),
{
    if c.is_whitespace() {
        CharClass::Blank
    } else if big {
        CharClass::Word
    } else if let Some(s) = script_class(c) {
        CharClass::Script(s)
    } else if c.is_alphanumeric() || c == '_' {
        CharClass::Word
    } else {
        CharClass::Punct
    }
}

/// One grapheme cluster of a line, with char offset and display geometry.
#[derive(Debug, Clone, Copy, PartialEq, Eq)]
pub struct Gr {
    /// Char offset within the line.
    pub char_off: usize,
    /// Number of chars in the cluster.
    pub chars: usize,
    /// First display cell (tab-aware).
    pub cell: usize,
    /// Display width in cells.
    pub width: usize,
    /// A space or tab — a soft-wrap break opportunity.
    pub is_blank: bool,
}

/// The extended grapheme clusters of a text (UAX #29), as
/// `unicode-segmentation` computes them.
pub uninterp spec fn grapheme_clusters(s: Seq<char>) -> Seq<Seq<char>>;

/// The display width of a text (UAX #11 and the emoji rules), as
/// `unicode-width` computes it.
pub uninterp spec fn display_width(s: Seq<char>) -> nat;

/// `UnicodeSegmentation::graphemes(line, true)`: the extended grapheme
/// clusters, in order. Stated: the list is the named segmentation, the
/// clusters are non-empty and together spell the line.
#[verifier::external_body]
fn graphemes_of(line: &str) -> (gs: Vec<String>)
    ensures
        gs@.map_values(|g: String| g@) == grapheme_clusters(line@),
        gs@.map_values(|g: String| g@).flatten() == line@,
        forall|i: int| 0 <= i < gs@.len() ==> #[trigger] gs@[i]@.len() > 0,
{
    line.graphemes(true).map(String::from).collect()
}

/// `UnicodeWidthStr::width`: the named display width. Stated besides: no
/// char counts for more than three cells (U+17D8, the widest, has width 3;
/// the listed sequences only narrow).
#[verifier::external_body]
pub(crate) fn width_of(s: &str) -> (w: usize)
    ensures
        w == display_width(s@),
        w <= 3 * s@.len(),
{
    s.width()
}

/// Width of a cluster starting at `cell`: a tab reaches the next tab stop,
/// anything else takes its display width and at least one cell.
pub open spec fn cluster_width(g: Seq<char>, tabstop: nat, cell: nat) -> nat {
    if g == seq!['\t'] {
        (tabstop - (cell % tabstop)) as nat
    } else if display_width(g) == 0 {
        1
    } else {
        display_width(g)
    }
}

pub open spec fn is_blank_cluster(g: Seq<char>) -> bool {
    g == seq![' '] || g == seq!['\t']
}

/// The `Gr`s of clusters laid out from char offset `off` and cell `cell`.
pub open spec fn grs_from(cl: Seq<Seq<char>>, tabstop: nat, off: nat, cell: nat) -> Seq<Gr>
    decreases cl.len(),
{
    if cl.len() == 0 {
        seq![]
    } else {
        let g = cl[0];
        let w = cluster_width(g, tabstop, cell);
        seq![
            Gr {
                char_off: off as usize,
                chars: g.len() as usize,
                cell: cell as usize,
                width: w as usize,
                is_blank: is_blank_cluster(g),
            },
        ] + grs_from(cl.drop_first(), tabstop, off + g.len(), cell + w)
    }
}

/// The grapheme layout of a line.
pub open spec fn spec_line_graphemes(line: Seq<char>, tabstop: nat) -> Seq<Gr> {
    grs_from(grapheme_clusters(line), tabstop, 0, 0)
}

/// Lines whose layout fits the machine: a tab stop to divide by, and room
/// for every cell count.
pub open spec fn layout_fits(line: Seq<char>, tabstop: nat) -> bool {
    &&& (tabstop > 0 || !line.contains('\t'))
    &&& line.len() * (3 + tabstop) <= usize::MAX
}

proof fn lemma_cluster_in_line(cl: Seq<Seq<char>>, k: int, line: Seq<char>)
    requires
        cl.flatten() == line,
        0 <= k < cl.len(),
        cl[k] == seq!['\t'],
    ensures
        line.contains('\t'),
    decreases k,
{
    if k == 0 {
        assert(cl.flatten() == cl.first() + cl.drop_first().flatten());
        assert(line[0] == '\t');
    } else {
        assert(cl.flatten() == cl.first() + cl.drop_first().flatten());
        lemma_cluster_in_line(cl.drop_first(), k - 1, cl.drop_first().flatten());
        let j = choose|j: int| 0 <= j < cl.drop_first().flatten().len() && cl.drop_first().flatten()[j] == '\t';
        assert(line[cl.first().len() + j] == '\t');
    }
}


/// Clusters laid out from the line's start: offsets and cells start at zero
/// and run on as sums of the chars and widths before them; every cluster
/// is at least one cell wide, a tab reaching the next tab stop.
pub open spec fn grs_laid_out(grs: Seq<Gr>, tabstop: nat) -> bool {
    &&& grs.len() > 0 ==> grs[0].char_off == 0 && grs[0].cell == 0
    &&& forall|i: int|
        0 < i < grs.len() ==> #[trigger] grs[i].cell == grs[i - 1].cell + grs[i - 1].width
    &&& forall|i: int| 0 <= i < grs.len() ==> (#[trigger] grs[i]).width >= 1
}

/// The chars of cluster `g` in `line`.
pub open spec fn gr_text(line: Seq<char>, g: Gr) -> Seq<char> {
    line.subrange(g.char_off as int, g.char_off + g.chars)
}

/// What each cluster holds: a tab reaches the next tab stop, and a cluster
/// is blank exactly when it is a space or a tab.
#[verifier::opaque]
pub open spec fn grs_content(grs: Seq<Gr>, line: Seq<char>, tabstop: nat) -> bool {
    forall|i: int|
        0 <= i < grs.len() ==> (gr_text(line, #[trigger] grs[i]) == seq!['\t'] ==> grs[i].width
            == tabstop - (grs[i].cell as int) % (tabstop as int)) && (grs[i].is_blank <==> (gr_text(line, grs[i])
            == seq![' '] || gr_text(line, grs[i]) == seq!['\t']))
}

/// What [`line_graphemes`] gives for a line: clusters that spell the line
/// in order from offset and cell zero, each at least one char and one cell,
/// cells as running sums of the widths, tabs to the next stop, blanks
/// marked, every offset and cell representable.
pub open spec fn line_layout(grs: Seq<Gr>, line: Seq<char>, tabstop: nat) -> bool {
    &&& grs_fit(grs)
    &&& grs_within(grs, line.len() as int)
    &&& grs_contiguous(grs)
    &&& grs_laid_out(grs, tabstop)
    &&& grs_content(grs, line, tabstop)
}

/// The grapheme clusters of a line with their char offsets and display
/// cells (tabs expand to the next multiple of `tabstop`).
#[verifier::spinoff_prover]
pub fn line_graphemes(line: &str, tabstop: usize) -> (out: Vec<Gr>)
    requires
        layout_fits(line@, tabstop as nat),
    ensures
        out@ == spec_line_graphemes(line@, tabstop as nat),
        grs_fit(out@),
        grs_within(out@, line@.len() as int),
        grs_contiguous(out@),
        grs_laid_out(out@, tabstop as nat),
        grs_content(out@, line@, tabstop as nat),
        line_layout(out@, line@, tabstop as nat),
        end_cell(out@) <= line@.len() * (3 + tabstop),
{
    reveal(grs_content);
    let gs = graphemes_of(line);
    let ghost cl = gs@.map_values(|g: String| g@);
    let mut out: Vec<Gr> = Vec::new();
    let mut char_off: usize = 0;
    let mut cell: usize = 0;
    let mut k: usize = 0;
    assert(cl.skip(0) =~= cl);
    while k < gs.len()
        invariant
            k <= gs@.len(),
            cl == gs@.map_values(|g: String| g@),
            cl == grapheme_clusters(line@),
            cl.flatten() == line@,
            forall|i: int| 0 <= i < gs@.len() ==> #[trigger] gs@[i]@.len() > 0,
            layout_fits(line@, tabstop as nat),
            char_off + cl.skip(k as int).flatten().len() == line@.len(),
            cell <= char_off * (3 + tabstop),
            grs_fit(out@),
            forall|i: int|
                0 <= i < out@.len() ==> (#[trigger] out@[i]).chars >= 1 && out@[i].char_off
                    + out@[i].chars <= char_off,
            end_col(out@) == char_off,
            end_cell(out@) == cell,
            grs_contiguous(out@),
            grs_laid_out(out@, tabstop as nat),
            grs_content(out@, line@, tabstop as nat),
            cl.skip(k as int).flatten() == line@.skip(char_off as int),
            out@ + grs_from(cl.skip(k as int), tabstop as nat, char_off as nat, cell as nat)
                == spec_line_graphemes(line@, tabstop as nat),
        decreases gs@.len() - k,
    {
        let g = &gs[k];
        let ghost rest = cl.skip(k as int);
        assert(rest[0] == g@);
        assert(rest.drop_first() =~= cl.skip(k + 1));
        assert(rest.flatten() == rest.first() + rest.drop_first().flatten());
        let gv = chars_of(g.as_str());
        let chars = gv.len();
        proof {
            assert(line@.skip(char_off as int) =~= g@ + cl.skip(k + 1).flatten());
            assert(line@.subrange(char_off as int, char_off + chars) =~= line@.skip(char_off as int).take(chars as int));
            assert(line@.skip(char_off as int).take(chars as int) =~= g@);
            assert(line@.skip(char_off + chars) =~= line@.skip(char_off as int).skip(chars as int));
            assert(line@.skip(char_off as int).skip(chars as int) =~= cl.skip(k + 1).flatten());
        }
        let is_tab = chars == 1 && gv[0] == '\t';
        let is_space = chars == 1 && gv[0] == ' ';
        proof {
            if is_tab {
                assert(g@ =~= seq!['\t']);
            }
            if g@ == seq!['\t'] {
                assert(gv@[0] == '\t');
            }
            if is_space {
                assert(g@ =~= seq![' ']);
            }
            if g@ == seq![' '] {
                assert(gv@[0] == ' ');
            }
        }
        let width = if is_tab {
            proof {
                if tabstop == 0 {
                    lemma_cluster_in_line(cl, k as int, line@);
                }
            }
            assert(tabstop > 0);
            tabstop - (cell % tabstop)
        } else {
            let w = width_of(g.as_str());
            if w == 0 {
                1
            } else {
                w
            }
        };
        assert(width <= chars * (3 + tabstop)) by (nonlinear_arith)
            requires
                chars >= 1,
                width <= 3 * chars || width <= tabstop || width == 1,
        ;
        assert((char_off + chars) * (3 + tabstop) == char_off * (3 + tabstop) + chars * (3
            + tabstop)) by (nonlinear_arith);
        assert(line@.len() * (3 + tabstop) >= (char_off + chars) * (3 + tabstop)) by (
        nonlinear_arith)
            requires
                line@.len() >= char_off + chars,
        ;
        assert(char_off + chars <= line@.len());
        assert(line@.len() <= line@.len() * (3 + tabstop)) by (nonlinear_arith);
        proof {
            if is_tab {
                assert(width == tabstop - (cell % tabstop));
            }
        }
        let ghost out0 = out@;
        out.push(Gr { char_off, chars, cell, width, is_blank: is_tab || is_space });
        proof {
            reveal(grs_content);
            assert(gr_text(line@, out@[out@.len() - 1]) == g@);
            assert forall|i: int| 0 <= i < out@.len() implies (gr_text(line@, #[trigger] out@[i])
                == seq!['\t'] ==> out@[i].width == tabstop - (out@[i].cell as int) % (tabstop as int)) && (
            out@[i].is_blank <==> (gr_text(line@, out@[i]) == seq![' '] || gr_text(line@, out@[i])
                == seq!['\t'])) by {
                if i < out0.len() {
                    assert(out@[i] == out0[i]);
                }
            };
        }
        char_off = char_off + chars;
        cell = cell + width;
        k = k + 1;
    }
    assert(cl.skip(k as int) =~= Seq::<Seq<char>>::empty());
    assert(out@ =~= spec_line_graphemes(line@, tabstop as nat));
    out
}


/// Clusters that lie within a line of `n` chars, each non-empty, the last
/// ending at the line's end.
pub open spec fn grs_within(grs: Seq<Gr>, n: int) -> bool {
    &&& forall|i: int|
        0 <= i < grs.len() ==> (#[trigger] grs[i]).chars >= 1 && grs[i].char_off + grs[i].chars
            <= n
    &&& end_col(grs) == n
}

/// Clusters within a line come in order: a later one starts no earlier.
pub proof fn lemma_grs_ordered(grs: Seq<Gr>, n: int, i: int, j: int)
    requires
        grs_within(grs, n),
        grs_contiguous(grs),
        0 <= i <= j < grs.len(),
    ensures
        grs[i].char_off <= grs[j].char_off,
    decreases j - i,
{
    if i < j {
        lemma_grs_ordered(grs, n, i, j - 1);
    }
}

/// Each cluster starts where the one before it ends.
pub open spec fn grs_contiguous(grs: Seq<Gr>) -> bool {
    forall|i: int| 0 < i < grs.len() ==> #[trigger] grs[i].char_off == grs[i - 1].char_off + grs[i - 1].chars
}

/// Clusters whose end offsets and end cells are representable.
pub open spec fn grs_fit(grs: Seq<Gr>) -> bool {
    forall|i: int|
        #![trigger grs[i]] 0 <= i < grs.len() ==> grs[i].char_off + grs[i].chars <= usize::MAX
            && grs[i].cell + grs[i].width <= usize::MAX
}

/// Index of the first cluster at or after `i` that holds char column `col`.
pub open spec fn first_at_col(grs: Seq<Gr>, col: int, i: int) -> Option<int>
    decreases grs.len() - i,
{
    if i < 0 || i >= grs.len() {
        None
    } else if col < grs[i].char_off + grs[i].chars {
        Some(i)
    } else {
        first_at_col(grs, col, i + 1)
    }
}

/// Index of the first cluster at or after `i` that covers display cell `cell`.
pub open spec fn first_at_cell(grs: Seq<Gr>, cell: int, i: int) -> Option<int>
    decreases grs.len() - i,
{
    if i < 0 || i >= grs.len() {
        None
    } else if cell < grs[i].cell + grs[i].width {
        Some(i)
    } else {
        first_at_cell(grs, cell, i + 1)
    }
}

pub proof fn lemma_first_at_cell_range(grs: Seq<Gr>, cell: int, i: int)
    requires
        0 <= i,
    ensures
        first_at_cell(grs, cell, i) matches Some(j) ==> i <= j < grs.len(),
    decreases grs.len() - i,
{
    if i < grs.len() && !(cell < grs[i].cell + grs[i].width) {
        lemma_first_at_cell_range(grs, cell, i + 1);
    }
}

pub proof fn lemma_first_at_col_range(grs: Seq<Gr>, col: int, i: int)
    requires
        0 <= i,
    ensures
        first_at_col(grs, col, i) matches Some(j) ==> i <= j < grs.len(),
    decreases grs.len() - i,
{
    if i < grs.len() && !(col < grs[i].char_off + grs[i].chars) {
        lemma_first_at_col_range(grs, col, i + 1);
    }
}

/// A line's layout starts at char offset zero and cell zero.
pub proof fn lemma_line_graphemes_start(line: Seq<char>, tabstop: nat)
    ensures
        spec_line_graphemes(line, tabstop).len() > 0 ==> spec_line_graphemes(line, tabstop)[0].char_off
            == 0 && spec_line_graphemes(line, tabstop)[0].cell == 0,
{
}

proof fn lemma_first_at_col_finds(grs: Seq<Gr>, n: int, col: int, i: int, j: int)
    requires
        grs_within(grs, n),
        grs_contiguous(grs),
        0 <= j <= i < grs.len(),
        grs[i].char_off <= col < grs[i].char_off + grs[i].chars,
    ensures
        first_at_col(grs, col, j) == Some(i),
    decreases i - j,
{
    if j < i {
        lemma_grs_ordered(grs, n, j + 1, i);
        lemma_first_at_col_finds(grs, n, col, i, j + 1);
    }
}

proof fn lemma_first_at_col_holds(grs: Seq<Gr>, col: int, j: int)
    requires
        grs_contiguous(grs),
        0 <= j,
        j > 0 ==> col >= grs[j - 1].char_off + grs[j - 1].chars,
        j == 0 && grs.len() > 0 ==> col >= grs[0].char_off,
    ensures
        first_at_col(grs, col, j) matches Some(k) ==> grs[k].char_off <= col < grs[k].char_off
            + grs[k].chars,
    decreases grs.len() - j,
{
    if j < grs.len() && !(col < grs[j].char_off + grs[j].chars) {
        lemma_first_at_col_holds(grs, col, j + 1);
    }
}

/// Law: the lookup by char column (behind [`cell_at_col`],
/// [`gr_index_at_col`] and [`snap_to_grapheme`]) finds the cluster that
/// holds the column when one does, and none exactly when none does (the
/// column is then at or past the line's end, where the cell is the line's
/// width).
pub proof fn lemma_col_lookup(grs: Seq<Gr>, n: int, col: int)
    requires
        grs_within(grs, n),
        grs_contiguous(grs),
        grs.len() > 0 ==> grs[0].char_off == 0,
        0 <= col,
    ensures
        forall|i: int|
            0 <= i < grs.len() && grs[i].char_off <= col < grs[i].char_off + grs[i].chars
                ==> first_at_col(grs, col, 0) == Some(i),
        first_at_col(grs, col, 0) matches Some(k) ==> grs[k].char_off <= col < grs[k].char_off
            + grs[k].chars,
        first_at_col(grs, col, 0) is None ==> col >= n,
{
    assert forall|i: int|
        0 <= i < grs.len() && grs[i].char_off <= col < grs[i].char_off + grs[i].chars implies first_at_col(
        grs,
        col,
        0,
    ) == Some(i) by {
        lemma_first_at_col_finds(grs, n, col, i, 0);
    }
    lemma_first_at_col_holds(grs, col, 0);
    lemma_none_past_end(grs, n, col, 0);
}

proof fn lemma_none_past_end(grs: Seq<Gr>, n: int, col: int, j: int)
    requires
        grs_within(grs, n),
        0 <= j <= grs.len(),
        j == grs.len() && j > 0 ==> col >= grs[j - 1].char_off + grs[j - 1].chars,
        j < grs.len() && j > 0 ==> col >= grs[j - 1].char_off + grs[j - 1].chars,
        grs.len() == 0 ==> n == 0,
        0 <= col,
    ensures
        first_at_col(grs, col, j) is None ==> col >= n,
    decreases grs.len() - j,
{
    if j < grs.len() && !(col < grs[j].char_off + grs[j].chars) {
        lemma_none_past_end(grs, n, col, j + 1);
    }
}

pub proof fn lemma_cells_ordered(grs: Seq<Gr>, ts: nat, i: int, j: int)
    requires
        grs_laid_out(grs, ts),
        0 <= i < j < grs.len(),
    ensures
        grs[i].cell + grs[i].width <= grs[j].cell,
    decreases j - i,
{
    if i + 1 < j {
        lemma_cells_ordered(grs, ts, i, j - 1);
    }
}

proof fn lemma_first_at_cell_finds(grs: Seq<Gr>, ts: nat, i: int, j: int)
    requires
        grs_laid_out(grs, ts),
        0 <= j <= i < grs.len(),
    ensures
        first_at_cell(grs, grs[i].cell as int, j) == Some(i),
    decreases i - j,
{
    if j < i {
        lemma_cells_ordered(grs, ts, j, i);
        lemma_first_at_cell_finds(grs, ts, i, j + 1);
    }
}

/// Law: a column's cell leads back to the start of the column's cluster:
/// [`col_at_cell`] after [`cell_at_col`] is [`snap_to_grapheme`] for every
/// column on the line; a cell at or past the line's width gives the last
/// cluster's start.
pub proof fn lemma_cell_col_round_trip(grs: Seq<Gr>, n: int, ts: nat, col: int, cell: int)
    requires
        grs_within(grs, n),
        grs_contiguous(grs),
        grs_laid_out(grs, ts),
        0 <= col < n,
    ensures
        first_at_col(grs, col, 0) matches Some(i) && first_at_cell(grs, grs[i].cell as int, 0)
            == Some(i),
        grs.len() > 0 && cell >= end_cell(grs) ==> first_at_cell(grs, cell, 0) is None,
{
    lemma_col_lookup(grs, n, col);
    lemma_first_at_col_range(grs, col, 0);
    if let Some(i) = first_at_col(grs, col, 0) {
        lemma_first_at_cell_finds(grs, ts, i, 0);
    }
    if grs.len() > 0 && cell >= end_cell(grs) {
        lemma_past_width(grs, ts, cell, 0);
    }
}

proof fn lemma_past_width(grs: Seq<Gr>, ts: nat, cell: int, j: int)
    requires
        grs_laid_out(grs, ts),
        grs.len() > 0,
        cell >= end_cell(grs),
        0 <= j,
    ensures
        first_at_cell(grs, cell, j) is None,
    decreases grs.len() - j,
{
    if j < grs.len() {
        if j < grs.len() - 1 {
            lemma_cells_ordered(grs, ts, j, grs.len() - 1);
        }
        lemma_past_width(grs, ts, cell, j + 1);
    }
}

/// Index into `grs` of the grapheme containing char column `col`, if any.
pub fn gr_index_at_col(grs: &[Gr], col: usize) -> (r: Option<usize>)
    requires
        grs_fit(grs@),
    ensures
        r == (match first_at_col(grs@, col as int, 0) {
            Some(i) => Some(i as usize),
            None => None,
        }),
        r matches Some(i) ==> i < grs@.len(),
        first_at_col(grs@, col as int, 0) matches Some(j) ==> 0 <= j < grs@.len(),
{
    proof {
        lemma_first_at_col_range(grs@, col as int, 0);
    }
    let mut i: usize = 0;
    while i < grs.len()
        invariant
            i <= grs@.len(),
            grs_fit(grs@),
            first_at_col(grs@, col as int, 0) == first_at_col(grs@, col as int, i as int),
        decreases grs@.len() - i,
    {
        let g = grs[i];
        assert(g.char_off + g.chars <= usize::MAX);
        if col < g.char_off + g.chars {
            return Some(i);
        }
        i += 1;
    }
    None
}

/// The char column just past the last cluster (0 for an empty line).
pub open spec fn end_col(grs: Seq<Gr>) -> int {
    if grs.len() == 0 {
        0
    } else {
        grs.last().char_off + grs.last().chars
    }
}

/// The display cell just past the last cluster (0 for an empty line).
pub open spec fn end_cell(grs: Seq<Gr>) -> int {
    if grs.len() == 0 {
        0
    } else {
        grs.last().cell + grs.last().width
    }
}

/// The start of the cluster holding column `col` (the line's end past it).
pub open spec fn spec_snap(grs: Seq<Gr>, col: int) -> int {
    match first_at_col(grs, col, 0) {
        Some(i) => grs[i].char_off as int,
        None => end_col(grs),
    }
}

/// The cell of the cluster holding column `col` (the end cell past it).
pub open spec fn spec_cell_at_col(grs: Seq<Gr>, col: int) -> int {
    match first_at_col(grs, col, 0) {
        Some(i) => grs[i].cell as int,
        None => end_cell(grs),
    }
}

/// The column of the cluster covering `cell`, clamped to the last
/// cluster's start (zero on an empty line).
pub open spec fn spec_col_at_cell(grs: Seq<Gr>, cell: int) -> int {
    match first_at_cell(grs, cell, 0) {
        Some(i) => grs[i].char_off as int,
        None => if grs.len() == 0 {
            0
        } else {
            grs.last().char_off as int
        },
    }
}

/// Snap a char column to the start of its grapheme cluster.
pub fn snap_to_grapheme(grs: &[Gr], col: usize) -> (r: usize)
    requires
        grs_fit(grs@),
    ensures
        r == spec_snap(grs@, col as int),
{
    match gr_index_at_col(grs, col) {
        Some(i) => grs[i].char_off,
        None => {
            if grs.len() == 0 {
                0
            } else {
                let g = grs[grs.len() - 1];
                g.char_off + g.chars
            }
        },
    }
}

/// Display cell of char column `col` (the cell after the last grapheme when
/// `col` is at end of line).
pub fn cell_at_col(grs: &[Gr], col: usize) -> (r: usize)
    requires
        grs_fit(grs@),
    ensures
        r == spec_cell_at_col(grs@, col as int),
{
    match gr_index_at_col(grs, col) {
        Some(i) => grs[i].cell,
        None => {
            if grs.len() == 0 {
                0
            } else {
                let g = grs[grs.len() - 1];
                g.cell + g.width
            }
        },
    }
}

/// Char column whose grapheme covers display cell `cell`, clamped to the last
/// grapheme start (normal-mode style). Empty line yields 0.
pub fn col_at_cell(grs: &[Gr], cell: usize) -> (r: usize)
    requires
        grs_fit(grs@),
    ensures
        r == spec_col_at_cell(grs@, cell as int),
{
    let mut i: usize = 0;
    while i < grs.len()
        invariant
            i <= grs@.len(),
            grs_fit(grs@),
            first_at_cell(grs@, cell as int, 0) == first_at_cell(grs@, cell as int, i as int),
        decreases grs@.len() - i,
    {
        let g = grs[i];
        assert(g.cell + g.width <= usize::MAX);
        if cell < g.cell + g.width {
            return g.char_off;
        }
        i += 1;
    }
    if grs.len() == 0 {
        0
    } else {
        grs[grs.len() - 1].char_off
    }
}


/// One display row of a soft-wrapped line: the half-open cell range
/// `[start_cell, end_cell)` it shows and the char columns `[start_col,
/// end_col)` those cells hold. A line always has at least one row; an empty
/// line has one empty row.
#[derive(Clone, Copy, Debug, PartialEq, Eq)]
pub struct WrapRow {
    pub start_cell: usize,
    pub end_cell: usize,
    pub start_col: usize,
    pub end_col: usize,
}

/// Cluster `i` does not fit on a row that starts at cluster `s` and is
/// `width` cells wide.
pub open spec fn overflows(grs: Seq<Gr>, width: int, s: int, i: int) -> bool {
    grs[i].cell + grs[i].width > grs[s].cell + width
}

/// The first cluster at or after `i` that overflows the row starting at `s`.
pub open spec fn first_overflow(grs: Seq<Gr>, width: int, s: int, i: int) -> Option<int>
    decreases grs.len() - i,
{
    if i < 0 || i >= grs.len() {
        None
    } else if overflows(grs, width, s, i) {
        Some(i)
    } else {
        first_overflow(grs, width, s, i + 1)
    }
}

/// Just past the last blank cluster in `[s, i)`: where a row may break.
pub open spec fn last_break(grs: Seq<Gr>, s: int, i: int) -> Option<int>
    decreases i - s,
{
    if i <= s {
        None
    } else if grs[i - 1].is_blank {
        Some(i)
    } else {
        last_break(grs, s, i - 1)
    }
}

/// Where a row starting at `s` ends when cluster `o` overflows it: right
/// after `o` if it is blank (the blank is swallowed by the wrap), else after
/// the row's last blank, else hard at `o`.
pub open spec fn row_cut(grs: Seq<Gr>, s: int, o: int) -> int {
    if grs[o].is_blank {
        o + 1
    } else {
        match last_break(grs, s, o) {
            Some(b) => if b > s {
                b
            } else {
                o
            },
            None => o,
        }
    }
}

/// The row holding clusters `[s, e)`.
pub open spec fn mk_row(grs: Seq<Gr>, s: int, e: int) -> WrapRow {
    WrapRow {
        start_cell: grs[s].cell,
        end_cell: if e < grs.len() {
            grs[e].cell
        } else {
            end_cell(grs) as usize
        },
        start_col: grs[s].char_off,
        end_col: if e < grs.len() {
            grs[e].char_off
        } else {
            end_col(grs) as usize
        },
    }
}

pub proof fn lemma_first_overflow_range(grs: Seq<Gr>, width: int, s: int, i: int)
    requires
        0 <= i,
    ensures
        first_overflow(grs, width, s, i) matches Some(o) ==> i <= o < grs.len(),
    decreases grs.len() - i,
{
    if i < grs.len() && !overflows(grs, width, s, i) {
        lemma_first_overflow_range(grs, width, s, i + 1);
    }
}

/// The rows of the clusters from `s` on.
pub open spec fn rows_from(grs: Seq<Gr>, width: int, s: int) -> Seq<WrapRow>
    decreases grs.len() - s,
{
    if s < 0 || s >= grs.len() {
        seq![]
    } else {
        match first_overflow(grs, width, s, s + 1) {
            None => seq![mk_row(grs, s, grs.len() as int)],
            Some(o) => {
                proof {
                    lemma_first_overflow_range(grs, width, s, s + 1);
                    lemma_last_break_range(grs, s, o);
                }
                seq![mk_row(grs, s, row_cut(grs, s, o))] + rows_from(grs, width, row_cut(grs, s, o))
            },
        }
    }
}

/// Soft wrapping at `width` cells (at least one).
pub open spec fn spec_wrap_rows(grs: Seq<Gr>, width: int) -> Seq<WrapRow> {
    if grs.len() == 0 {
        seq![WrapRow { start_cell: 0, end_cell: 0, start_col: 0, end_col: 0 }]
    } else {
        rows_from(grs, if width < 1 { 1 } else { width }, 0)
    }
}

/// Clusters whose cells, and a row of `width` cells after any of them,
/// are representable.
pub open spec fn wrap_fits(grs: Seq<Gr>, width: int) -> bool {
    &&& grs_fit(grs)
    &&& forall|i: int| #![trigger grs[i]] 0 <= i < grs.len() ==> grs[i].cell + width <= usize::MAX
}

pub proof fn lemma_last_break_range(grs: Seq<Gr>, s: int, i: int)
    ensures
        last_break(grs, s, i) matches Some(b) ==> s < b <= i,
    decreases i - s,
{
    if i > s && !grs[i - 1].is_blank {
        lemma_last_break_range(grs, s, i - 1);
    }
}

/// Soft-wraps a line's graphemes into rows of at most `width` cells, breaking
/// after whitespace when a row would overflow (vim's `wrap` + `linebreak`);
/// a single run longer than the row is broken hard at the cell limit. The
/// trailing space stays at the end of the row it closes, as in vim.
#[verifier::spinoff_prover]
pub fn wrap_rows(grs: &[Gr], width: usize) -> (rows: Vec<WrapRow>)
    requires
        wrap_fits(grs@, if width < 1 { 1 } else { width as int }),
    ensures
        rows@ == spec_wrap_rows(grs@, width as int),
{
    let width = if width < 1 { 1 } else { width };
    let ghost w = width as int;
    let ghost all = grs@;
    let total_cells: usize = if grs.len() == 0 {
        0
    } else {
        grs[grs.len() - 1].cell + grs[grs.len() - 1].width
    };
    let total_cols: usize = if grs.len() == 0 {
        0
    } else {
        grs[grs.len() - 1].char_off + grs[grs.len() - 1].chars
    };
    let mut rows: Vec<WrapRow> = Vec::new();
    let mut row_start: usize = 0;
    let mut last_brk: Option<usize> = None;
    let mut i: usize = 0;
    while i < grs.len()
        invariant
            all == grs@,
            w == width as int,
            w >= 1,
            wrap_fits(all, w),
            total_cells as int == end_cell(all),
            total_cols as int == end_col(all),
            row_start <= i <= all.len(),
            row_start < all.len() ==> first_overflow(all, w, row_start as int, row_start + 1)
                == first_overflow(
                all,
                w,
                row_start as int,
                if i > row_start {
                    i as int
                } else {
                    row_start + 1
                },
            ),
            last_brk == (match last_break(all, row_start as int, i as int) {
                Some(b) => Some(b as usize),
                None => None::<usize>,
            }),
            all.len() > 0 ==> rows@ + rows_from(all, w, row_start as int) == rows_from(all, w, 0),
            all.len() == 0 ==> rows@.len() == 0,
        decreases all.len() - row_start, all.len() - i,
    {
        let g = grs[i];
        let row_cell0 = grs[row_start].cell;
        assert(g.cell + g.width <= usize::MAX);
        assert(row_cell0 + width <= usize::MAX);
        if g.cell + g.width > row_cell0 + width && i > row_start {
            proof {
                lemma_last_break_range(all, row_start as int, i as int);
                assert(first_overflow(all, w, row_start as int, i as int) == Some(i as int));
            }
            let cut = if g.is_blank {
                i + 1
            } else {
                match last_brk {
                    Some(b) => if b > row_start {
                        b
                    } else {
                        i
                    },
                    None => i,
                }
            };
            assert(cut as int == row_cut(all, row_start as int, i as int));
            let row = WrapRow {
                start_cell: grs[row_start].cell,
                end_cell: if cut < grs.len() {
                    grs[cut].cell
                } else {
                    total_cells
                },
                start_col: grs[row_start].char_off,
                end_col: if cut < grs.len() {
                    grs[cut].char_off
                } else {
                    total_cols
                },
            };
            assert(row == mk_row(all, row_start as int, cut as int));
            proof {
                assert(rows_from(all, w, row_start as int) == seq![row] + rows_from(all, w, cut as int));
            }
            rows.push(row);
            assert(rows@ + rows_from(all, w, cut as int) =~= rows_from(all, w, 0));
            row_start = cut;
            last_brk = None;
            i = cut;
            continue;
        }
        proof {
            if i > row_start {
                assert(first_overflow(all, w, row_start as int, i as int) == first_overflow(
                    all,
                    w,
                    row_start as int,
                    i + 1,
                ));
            }
        }
        if g.is_blank {
            last_brk = Some(i + 1);
        }
        i += 1;
    }
    if row_start < grs.len() || rows.len() == 0 {
        let start_cell = if row_start < grs.len() {
            grs[row_start].cell
        } else {
            total_cells
        };
        let start_col = if row_start < grs.len() {
            grs[row_start].char_off
        } else {
            total_cols
        };
        let row = WrapRow { start_cell, end_cell: total_cells, start_col, end_col: total_cols };
        let ghost before = rows@;
        rows.push(row);
        proof {
            if all.len() > 0 {
                assert(row == mk_row(all, row_start as int, all.len() as int));
                assert(first_overflow(all, w, row_start as int, all.len() as int) == None::<int>);
                assert(rows_from(all, w, row_start as int) == seq![
                    mk_row(all, row_start as int, all.len() as int),
                ]);
                assert(rows@ =~= before + rows_from(all, w, row_start as int));
            }
        }
    } else {
        assert(rows_from(all, w, row_start as int) == Seq::<WrapRow>::empty());
        assert(rows@ =~= rows@ + rows_from(all, w, row_start as int));
    }
    assert(rows@ =~= spec_wrap_rows(grs@, width as int));
    rows
}

/// The char column just past a cluster.
pub open spec fn gr_end(g: Gr) -> int {
    g.char_off + g.chars
}

/// A row is at most `width` cells wide, unless it holds a single cluster
/// or ends on a blank one (a blank that overflows is swallowed by the
/// wrap, and a lone cluster wider than the row has nowhere else to go).
#[verifier::opaque]
pub open spec fn row_within(grs: Seq<Gr>, width: int, r: WrapRow) -> bool {
    ||| r.end_cell - r.start_cell <= width
    ||| exists|i: int|
        0 <= i < grs.len() && grs[i].char_off == r.start_col && #[trigger] gr_end(grs[i]) == r.end_col
    ||| exists|j: int| 0 <= j < grs.len() && grs[j].is_blank && #[trigger] gr_end(grs[j]) == r.end_col
}

proof fn lemma_no_overflow(grs: Seq<Gr>, width: int, s: int, i: int, j: int)
    requires
        0 <= i <= j < grs.len(),
        first_overflow(grs, width, s, i) is None,
    ensures
        !overflows(grs, width, s, j),
    decreases j - i,
{
    if i < j {
        lemma_no_overflow(grs, width, s, i + 1, j);
    }
}

proof fn lemma_overflow_first(grs: Seq<Gr>, width: int, s: int, i: int, j: int)
    requires
        0 <= i <= j,
        first_overflow(grs, width, s, i) matches Some(o) && j < o,
    ensures
        !overflows(grs, width, s, j),
    decreases j - i,
{
    if i < j {
        lemma_overflow_first(grs, width, s, i + 1, j);
    }
}

proof fn lemma_last_break_blank(grs: Seq<Gr>, s: int, i: int)
    ensures
        last_break(grs, s, i) matches Some(b) ==> grs[b - 1].is_blank,
    decreases i - s,
{
    if i > s && !grs[i - 1].is_blank {
        lemma_last_break_blank(grs, s, i - 1);
    }
}

/// Char columns grow from one cluster to any later one.
proof fn lemma_col_after(grs: Seq<Gr>, n: int, s: int, e: int)
    requires
        grs_within(grs, n),
        grs_contiguous(grs),
        0 <= s < e,
        s < grs.len(),
        e <= grs.len(),
    ensures
        gr_end(grs[s]) <= (if e < grs.len() {
            grs[e].char_off as int
        } else {
            end_col(grs)
        }),
{
    if e < grs.len() {
        lemma_grs_ordered(grs, n, s + 1, e);
    } else {
        lemma_grs_ordered(grs, n, s, grs.len() - 1);
        if s < grs.len() - 1 {
            lemma_grs_ordered(grs, n, s + 1, grs.len() - 1);
        }
    }
}

/// Where the row starting at cluster `s` ends.
pub open spec fn next_row_start(grs: Seq<Gr>, w: int, s: int) -> int {
    match first_overflow(grs, w, s, s + 1) {
        None => grs.len() as int,
        Some(o) => row_cut(grs, s, o),
    }
}

#[verifier::spinoff_prover]
proof fn lemma_first_row(grs: Seq<Gr>, ts: nat, n: int, w: int, s: int)
    requires
        grs_laid_out(grs, ts),
        grs_contiguous(grs),
        grs_within(grs, n),
        grs_fit(grs),
        w >= 1,
        0 <= s < grs.len(),
    ensures
        ({
            let cut = next_row_start(grs, w, s);
            let row = mk_row(grs, s, cut);
            &&& s < cut <= grs.len()
            &&& rows_from(grs, w, s) == seq![row] + rows_from(grs, w, cut)
            &&& row.start_cell == grs[s].cell
            &&& row.start_col == grs[s].char_off
            &&& row.end_cell == (if cut < grs.len() {
                grs[cut].cell as int
            } else {
                end_cell(grs)
            })
            &&& row.end_col == (if cut < grs.len() {
                grs[cut].char_off as int
            } else {
                n
            })
            &&& row.start_col < row.end_col
            &&& row_within(grs, w, row)
        }),
{
    reveal(row_within);
    let last = grs.len() - 1;
    lemma_first_overflow_range(grs, w, s, s + 1);
    match first_overflow(grs, w, s, s + 1) {
        None => {
            let row = mk_row(grs, s, grs.len() as int);
            lemma_col_after(grs, n, s, grs.len() as int);
            if s < last {
                lemma_no_overflow(grs, w, s, s + 1, last);
                assert(row.end_cell - row.start_cell <= w);
            } else {
                assert(gr_end(grs[s]) == row.end_col);
            }
            assert(rows_from(grs, w, grs.len() as int) == Seq::<WrapRow>::empty());
            assert(rows_from(grs, w, s) =~= seq![row] + rows_from(grs, w, grs.len() as int));
        },
        Some(o) => {
            lemma_last_break_range(grs, s, o);
            lemma_last_break_blank(grs, s, o);
            let cut = row_cut(grs, s, o);
            let row = mk_row(grs, s, cut);
            lemma_col_after(grs, n, s, cut);
            if grs[o].is_blank {
                assert(gr_end(grs[o]) == row.end_col);
            } else if cut < o {
                assert(gr_end(grs[cut - 1]) == row.end_col);
            } else if o == s + 1 {
                assert(gr_end(grs[s]) == row.end_col);
            } else {
                lemma_overflow_first(grs, w, s, s + 1, o - 1);
                assert(row.end_cell - row.start_cell <= w);
            }
        },
    }
}

#[verifier::spinoff_prover]
proof fn lemma_rows_from(grs: Seq<Gr>, ts: nat, n: int, w: int, s: int)
    requires
        grs_laid_out(grs, ts),
        grs_contiguous(grs),
        grs_within(grs, n),
        grs_fit(grs),
        w >= 1,
        0 <= s < grs.len(),
    ensures
        ({
            let r = rows_from(grs, w, s);
            &&& r.len() >= 1
            &&& r[0].start_cell == grs[s].cell
            &&& r[0].start_col == grs[s].char_off
            &&& r.last().end_cell == end_cell(grs)
            &&& r.last().end_col == n
            &&& forall|k: int|
                0 <= k < r.len() - 1 ==> #[trigger] r[k].end_cell == r[k + 1].start_cell && r[k].end_col
                    == r[k + 1].start_col
            &&& forall|k: int|
                0 <= k < r.len() ==> #[trigger] r[k].start_col < r[k].end_col && row_within(grs, w, r[k])
        }),
    decreases grs.len() - s,
{
    lemma_first_row(grs, ts, n, w, s);
    let cut = next_row_start(grs, w, s);
    let row = mk_row(grs, s, cut);
    let r = rows_from(grs, w, s);
    let rest = rows_from(grs, w, cut);
    if cut < grs.len() {
        lemma_rows_from(grs, ts, n, w, cut);
        assert forall|k: int| 0 <= k < r.len() - 1 implies #[trigger] r[k].end_cell == r[k + 1].start_cell
            && r[k].end_col == r[k + 1].start_col by {
            assert(r[k + 1] == rest[k]);
            if k > 0 {
                assert(r[k] == rest[k - 1]);
            }
        };
        assert forall|k: int| 0 <= k < r.len() implies #[trigger] r[k].start_col < r[k].end_col
            && row_within(grs, w, r[k]) by {
            if k > 0 {
                assert(r[k] == rest[k - 1]);
            }
        };
        assert(r.last() == rest.last());
    } else {
        assert(rest == Seq::<WrapRow>::empty());
        assert(r =~= seq![row]);
    }
}

/// Soft wrapping lays a line out in at least one row; the rows run on from
/// one another in cells and in char columns, from the line's start to its
/// end; on a non-empty line every row holds chars; and a row is at most
/// `width` cells wide (at least one) unless it holds a single cluster or
/// ends on a blank one.
#[verifier::spinoff_prover]
pub proof fn lemma_wrap_rows_cover(grs: Seq<Gr>, line: Seq<char>, ts: nat, width: int)
    requires
        line_layout(grs, line, ts),
    ensures
        ({
            let n = line.len() as int;
            let rows = spec_wrap_rows(grs, width);
            let w = if width < 1 {
                1
            } else {
                width
            };
            &&& rows.len() >= 1
            &&& rows[0].start_cell == 0
            &&& rows[0].start_col == 0
            &&& rows.last().end_cell == end_cell(grs)
            &&& rows.last().end_col == n
            &&& forall|k: int|
                0 <= k < rows.len() - 1 ==> #[trigger] rows[k].end_cell == rows[k + 1].start_cell
                    && rows[k].end_col == rows[k + 1].start_col
            &&& n > 0 ==> forall|k: int| 0 <= k < rows.len() ==> #[trigger] rows[k].start_col < rows[k].end_col
            &&& forall|k: int| 0 <= k < rows.len() ==> #[trigger] row_within(grs, w, rows[k])
        }),
{
    let w = if width < 1 {
        1
    } else {
        width
    };
    let rows = spec_wrap_rows(grs, width);
    let n = line.len() as int;
    if grs.len() > 0 {
        lemma_rows_from(grs, ts, n, w, 0);
        assert forall|k: int| 0 <= k < rows.len() implies #[trigger] row_within(grs, w, rows[k]) by {
            assert(rows[k].start_col < rows[k].end_col);
        };
        assert forall|k: int| 0 <= k < rows.len() - 1 implies #[trigger] rows[k].end_cell == rows[k
            + 1].start_cell && rows[k].end_col == rows[k + 1].start_col by {
            assert(rows[k].end_cell == rows[k + 1].start_cell);
        };
    } else {
        reveal(row_within);
    }
}

/// Index of the first row at or after `i` whose columns end past `col`.
pub open spec fn first_row_past(rows: Seq<WrapRow>, col: int, i: int) -> Option<int>
    decreases rows.len() - i,
{
    if i < 0 || i >= rows.len() {
        None
    } else if col < rows[i].end_col {
        Some(i)
    } else {
        first_row_past(rows, col, i + 1)
    }
}

/// Index of the row (within `rows`) that holds char column `col`; a column
/// at or past the line's end lands on the last row.
pub fn row_of_col(rows: &[WrapRow], col: usize) -> (r: usize)
    ensures
        r == (match first_row_past(rows@, col as int, 0) {
            Some(i) => i,
            None => if rows@.len() == 0 {
                0
            } else {
                rows@.len() - 1
            },
        }),
{
    let mut i: usize = 0;
    while i < rows.len()
        invariant
            i <= rows@.len(),
            first_row_past(rows@, col as int, 0) == first_row_past(rows@, col as int, i as int),
        decreases rows@.len() - i,
    {
        if col < rows[i].end_col {
            return i;
        }
        i += 1;
    }
    if rows.len() == 0 {
        0
    } else {
        rows.len() - 1
    }
}

/// The number of chars the clusters hold.
pub open spec fn sum_chars(grs: Seq<Gr>) -> int
    decreases grs.len(),
{
    if grs.len() == 0 {
        0
    } else {
        sum_chars(grs.drop_last()) + grs.last().chars
    }
}

proof fn lemma_sum_chars_prefix(grs: Seq<Gr>, n: int, k: int)
    requires
        grs_within(grs, n),
        grs_contiguous(grs),
        grs.len() > 0 ==> grs[0].char_off == 0,
        0 <= k <= grs.len(),
    ensures
        sum_chars(grs.take(k)) == end_col(grs.take(k)),
    decreases k,
{
    if k > 0 {
        lemma_sum_chars_prefix(grs, n, k - 1);
        assert(grs.take(k).drop_last() =~= grs.take(k - 1));
    }
}

/// The clusters of a line spell it: their chars add up to the line's
/// length; the first starts at offset and cell zero; each starts where the
/// one before ends, in chars and in cells; each is at least one cell wide;
/// a tab reaches the next tab stop; a cluster is blank exactly when it is a
/// space or a tab.
pub proof fn lemma_line_layout_law(grs: Seq<Gr>, line: Seq<char>, ts: nat)
    requires
        line_layout(grs, line, ts),
    ensures
        sum_chars(grs) == line.len(),
        grs.len() > 0 ==> grs[0].char_off == 0 && grs[0].cell == 0,
        forall|k: int|
            0 <= k < grs.len() - 1 ==> #[trigger] grs[k + 1].char_off == grs[k].char_off + grs[k].chars
                && grs[k + 1].cell == grs[k].cell + grs[k].width,
        forall|k: int| 0 <= k < grs.len() ==> (#[trigger] grs[k]).width >= 1,
        forall|k: int|
            0 <= k < grs.len() && gr_text(line, #[trigger] grs[k]) == seq!['\t'] ==> grs[k].width == ts
                - (grs[k].cell as int) % (ts as int),
        forall|k: int|
            0 <= k < grs.len() ==> ((#[trigger] grs[k]).is_blank <==> (gr_text(line, grs[k]) == seq![' ']
                || gr_text(line, grs[k]) == seq!['\t'])),
{
    reveal(grs_content);
    lemma_sum_chars_prefix(grs, line.len() as int, grs.len() as int);
    assert(grs.take(grs.len() as int) =~= grs);
    assert forall|k: int| 0 <= k < grs.len() - 1 implies #[trigger] grs[k + 1].char_off == grs[k].char_off
        + grs[k].chars && grs[k + 1].cell == grs[k].cell + grs[k].width by {
        assert(grs[k + 1].char_off == grs[k + 1 - 1].char_off + grs[k + 1 - 1].chars);
        assert(grs[k + 1].cell == grs[k + 1 - 1].cell + grs[k + 1 - 1].width);
    };
}

/// Cluster `g` holds char column `col`.
pub open spec fn holds_col(g: Gr, col: int) -> bool {
    g.char_off <= col < g.char_off + g.chars
}

/// A column's cell is the first cell of the cluster holding it, or the
/// line's end cell when no cluster holds it.
#[verifier::spinoff_prover]
pub proof fn lemma_cell_at_col_law(grs: Seq<Gr>, line: Seq<char>, ts: nat, col: int)
    requires
        line_layout(grs, line, ts),
        0 <= col,
    ensures
        forall|i: int|
            0 <= i < grs.len() && #[trigger] holds_col(grs[i], col) ==> spec_cell_at_col(grs, col)
                == grs[i].cell,
        (forall|i: int| 0 <= i < grs.len() ==> !#[trigger] holds_col(grs[i], col)) ==> spec_cell_at_col(
            grs,
            col,
        ) == end_cell(grs),
{
    assert(grs_within(grs, line.len() as int) && grs_contiguous(grs));
    assert(grs.len() > 0 ==> grs[0].char_off == 0);
    lemma_col_lookup(grs, line.len() as int, col);
    lemma_first_at_col_range(grs, col, 0);
    assert forall|i: int| 0 <= i < grs.len() && #[trigger] holds_col(grs[i], col) implies spec_cell_at_col(
        grs,
        col,
    ) == grs[i].cell by {
        assert(first_at_col(grs, col, 0) == Some(i));
    };
    if let Some(k) = first_at_col(grs, col, 0) {
        assert(holds_col(grs[k], col));
    }
}

/// Going from a column to its cell and back lands on the start of the
/// column's cluster; a cell at or past the line's width gives the last
/// cluster's start; an empty line gives column zero.
pub proof fn lemma_col_at_cell_law(grs: Seq<Gr>, line: Seq<char>, ts: nat, col: int, cell: int)
    requires
        line_layout(grs, line, ts),
    ensures
        0 <= col < line.len() ==> spec_col_at_cell(grs, spec_cell_at_col(grs, col)) == spec_snap(grs, col),
        line.len() > 0 && cell >= end_cell(grs) ==> grs.len() > 0 && spec_col_at_cell(grs, cell)
            == grs.last().char_off,
        grs.len() == 0 ==> spec_col_at_cell(grs, cell) == 0,
{
    if 0 <= col < line.len() {
        lemma_cell_col_round_trip(grs, line.len() as int, ts, col, cell);
    }
    if line.len() > 0 {
        assert(grs.len() > 0);
        lemma_cell_col_round_trip(grs, line.len() as int, ts, 0, cell);
    }
}

} // verus!
