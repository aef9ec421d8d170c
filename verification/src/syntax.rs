//! Syntax highlighting output: the parser paints a style per byte of the
//! source (a canvas), and the canvas folds into per-line char spans for
//! the renderer.

use vstd::prelude::*;

use crate::chars::{char_utf8_len, chars_of, utf8_len, utf8_size};

verus! {

/// No style painted on a byte.
pub const UNSTYLED: u16 = 0xFFFF;

/// One styled run within a line: char columns `start..end`, theme capture.
pub type LineSpan = (u32, u32, u16);

/// The fold's state: the line and char column reached, and the run being
/// extended (its start column and style).
pub struct FoldState {
    pub line: nat,
    pub col: nat,
    pub run_start: nat,
    pub run_style: u16,
}

/// A finished run lands on its line when it is styled, not empty, and the
/// line exists.
pub open spec fn flush(lines: Seq<Seq<LineSpan>>, line: nat, start: nat, end: nat, style: u16) -> Seq<Seq<LineSpan>> {
    if style != UNSTYLED && end > start && line < lines.len() {
        lines.update(line as int, lines[line as int].push((start as u32, end as u32, style)))
    } else {
        lines
    }
}

/// Folding chars `i..` of the source, char `i` starting at byte `byte`:
/// a line break ends the run and the line; a char whose style differs from
/// the run's ends the run and starts one; the end of the source ends the
/// last run.
pub open spec fn fold_from(src: Seq<char>, canvas: Seq<u16>, i: int, byte: int, st: FoldState, lines: Seq<Seq<LineSpan>>) -> Seq<Seq<LineSpan>>
    decreases src.len() - i,
{
    if i < 0 || i >= src.len() {
        flush(lines, st.line, st.run_start, st.col, st.run_style)
    } else if src[i] == '\n' {
        fold_from(
            src,
            canvas,
            i + 1,
            byte + 1,
            FoldState { line: st.line + 1, col: 0, run_start: 0, run_style: UNSTYLED },
            flush(lines, st.line, st.run_start, st.col, st.run_style),
        )
    } else {
        let style = canvas[byte];
        let (lines2, st2) = if style != st.run_style {
            (
                flush(lines, st.line, st.run_start, st.col, st.run_style),
                FoldState { run_start: st.col, run_style: style, ..st },
            )
        } else {
            (lines, st)
        };
        fold_from(
            src,
            canvas,
            i + 1,
            byte + utf8_len(src[i]),
            FoldState { col: st2.col + 1, ..st2 },
            lines2,
        )
    }
}

/// The per-line spans of a source from its per-byte canvas, added to
/// `lines` (one list per line, already there).
pub open spec fn spec_fold_canvas(src: Seq<char>, canvas: Seq<u16>, lines: Seq<Seq<LineSpan>>) -> Seq<Seq<LineSpan>> {
    fold_from(
        src,
        canvas,
        0,
        0,
        FoldState { line: 0, col: 0, run_start: 0, run_style: UNSTYLED },
        lines,
    )
}

fn flush_run(lines: &mut Vec<Vec<LineSpan>>, line: usize, start: u32, end: u32, style: u16)
    ensures
        final(lines)@.map_values(|v: Vec<LineSpan>| v@) == flush(
            old(lines)@.map_values(|v: Vec<LineSpan>| v@),
            line as nat,
            start as nat,
            end as nat,
            style,
        ),
{
    if style != UNSTYLED && end > start && line < lines.len() {
        let ghost before = lines@.map_values(|v: Vec<LineSpan>| v@);
        let ghost vs = lines@;
        let mut v = lines.remove(line);
        v.push((start, end, style));
        lines.insert(line, v);
        assert(lines@ =~= vs.update(line as int, v));
        assert(lines@.map_values(|v: Vec<LineSpan>| v@) =~= before.update(
            line as int,
            before[line as int].push((start, end, style)),
        ));
    }
}

/// Converts the per-byte canvas into per-line char spans, merging runs of
/// one style (see [`spec_fold_canvas`]). The canvas has a style for every
/// byte of the source.
pub fn fold_canvas(source: &str, canvas: &[u16], lines: &mut Vec<Vec<LineSpan>>)
    requires
        canvas@.len() >= utf8_size(source@),
        source@.len() <= u32::MAX,
    ensures
        final(lines)@.map_values(|v: Vec<LineSpan>| v@) == spec_fold_canvas(
            source@,
            canvas@,
            old(lines)@.map_values(|v: Vec<LineSpan>| v@),
        ),
{
    let v = chars_of(source);
    let ghost src = v@;
    let ghost lines0 = lines@.map_values(|v: Vec<LineSpan>| v@);
    let mut byte: usize = 0;
    let mut line: usize = 0;
    let mut col: u32 = 0;
    let mut run_start: u32 = 0;
    let mut run_style: u16 = UNSTYLED;
    let mut i: usize = 0;
    assert(src.take(0) =~= Seq::<char>::empty());
    while i < v.len()
        invariant
            src == v@,
            src == source@,
            canvas@.len() >= utf8_size(src),
            canvas@.len() == canvas.len(),
            src.len() <= u32::MAX,
            i <= src.len(),
            byte == utf8_size(src.take(i as int)),
            line <= i,
            col <= i,
            run_start <= col,
            fold_from(
                src,
                canvas@,
                i as int,
                byte as int,
                FoldState {
                    line: line as nat,
                    col: col as nat,
                    run_start: run_start as nat,
                    run_style,
                },
                lines@.map_values(|v: Vec<LineSpan>| v@),
            ) == spec_fold_canvas(src, canvas@, lines0),
        decreases src.len() - i,
    {
        proof {
            crate::chars::lemma_utf8_size_take(src, i as int);
            if i + 1 < src.len() {
                crate::chars::lemma_utf8_size_mono(src, i + 1, src.len() as int);
            }
            assert(src.take(src.len() as int) =~= src);
            assert(utf8_size(src.take(i + 1)) <= canvas@.len());
        }
        let c = v[i];
        if c == '\n' {
            flush_run(lines, line, run_start, col, run_style);
            line = line + 1;
            col = 0;
            run_start = 0;
            run_style = UNSTYLED;
            byte = byte + 1;
        } else {
            let style = canvas[byte];
            if style != run_style {
                flush_run(lines, line, run_start, col, run_style);
                run_start = col;
                run_style = style;
            }
            byte = byte + char_utf8_len(c) as usize;
            col = col + 1;
        }
        i = i + 1;
    }
    flush_run(lines, line, run_start, col, run_style);
}

} // verus!
