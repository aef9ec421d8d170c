//! Where things land on the screen: the text cursor inside its window,
//! the command-line cursor, the completion popup, and the line-number
//! gutter text.

use vstd::prelude::*;

use crate::chars::{dec, push_render};

verus! {

/// A screen rectangle: left column, top row, width, height.
pub struct ScreenRect {
    pub x: u16,
    pub y: u16,
    pub width: u16,
    pub height: u16,
}

/// The terminal cursor for a text cursor shown at `row` (display rows from
/// the window's top) and `xcell` (cells into its row), right of a gutter
/// `gutter` cells wide: kept inside the window, off its status row.
pub open spec fn spec_cursor_screen(r: ScreenRect, gutter: u16, row: u16, xcell: u16) -> (int, int) {
    let x = r.x + gutter + xcell;
    let y = r.y + row;
    let max_x = r.x + r.width - 1;
    let max_y = r.y + if r.height >= 2 { r.height - 2 } else { 0 };
    (if x < max_x { x } else { max_x }, if y < max_y { y } else { max_y })
}

/// The terminal cursor of a text cursor (see [`spec_cursor_screen`]).
pub fn cursor_screen(r: &ScreenRect, gutter: u16, row: u16, xcell: u16) -> (p: (u16, u16))
    requires
        r.width >= 1,
        r.x + r.width <= u16::MAX + 1,
        r.y + r.height <= u16::MAX + 1,
        r.x + gutter + xcell <= u16::MAX,
        r.y + row <= u16::MAX,
    ensures
        (p.0 as int, p.1 as int) == spec_cursor_screen(*r, gutter, row, xcell),
{
    let x = r.x + gutter + xcell;
    let y = r.y + row;
    let max_x = r.x + (r.width - 1);
    let max_y = r.y + if r.height >= 2 { r.height - 2 } else { 0 };
    (if x < max_x { x } else { max_x }, if y < max_y { y } else { max_y })
}

/// The command-line cursor: after the `:` and the typed text, at most the
/// last column.
pub fn cmdline_cursor_x(typed_width: u16, screen_width: u16) -> (x: u16)
    requires
        screen_width >= 1,
        typed_width < u16::MAX,
    ensures
        x == (if 1 + typed_width < screen_width - 1 { 1 + typed_width } else { screen_width - 1 }),
{
    let x = 1 + typed_width;
    if x < screen_width - 1 {
        x
    } else {
        screen_width - 1
    }
}

/// The completion popup for `rows` candidates whose widest label and
/// detail take `label_w` and `detail_w` cells, anchored at column
/// `anchor_x` under row `cursor_y` in window `win`: at most ten rows high
/// (at least one), wide enough for label, detail and padding, the sum taken
/// in sixteen bits (between
/// fourteen cells and the window's width, fourteen at least), below the
/// cursor when it fits there and above it otherwise, shifted left to stay
/// inside the window.
pub open spec fn spec_popup(anchor_x: u16, cursor_y: u16, win: ScreenRect, rows: nat, label_w: nat, detail_w: nat) -> (int, int, int, int) {
    let h: int = if rows < 10 { if rows >= 1 { rows as int } else { 1 } } else { 10 };
    let want: int = ((label_w + detail_w + 3) % 65536) as int;
    let hi: int = if win.width >= 14 { win.width as int } else { 14 };
    let w: int = if want < 14 { 14 } else if want > hi { hi } else { want };
    let below = cursor_y + 1;
    let y = if below + h <= win.y + win.height { below } else { if cursor_y >= h { cursor_y - h } else { 0 } };
    let right = if win.x + win.width >= w { win.x + win.width - w } else { 0 };
    let x = if anchor_x < right { anchor_x as int } else { right };
    (x, y, w, h)
}

/// The completion popup's place and size (see [`spec_popup`]).
pub fn popup_rect(anchor_x: u16, cursor_y: u16, win: &ScreenRect, rows: usize, label_w: usize, detail_w: usize) -> (r: ScreenRect)
    requires
        cursor_y + 11 <= u16::MAX,
        win.x + win.width <= u16::MAX,
        win.y + win.height <= u16::MAX,
        label_w + detail_w + 3 <= usize::MAX,
    ensures
        (r.x as int, r.y as int, r.width as int, r.height as int) == spec_popup(
            anchor_x,
            cursor_y,
            *win,
            rows as nat,
            label_w as nat,
            detail_w as nat,
        ),
{
    let h: u16 = if rows < 10 { if rows >= 1 { rows as u16 } else { 1 } } else { 10 };
    let want = (label_w + detail_w + 3) % 65536;
    let hi: u16 = if win.width >= 14 { win.width } else { 14 };
    let w: u16 = if want < 14 { 14 } else if want > hi as usize { hi } else { want as u16 };
    let below = cursor_y + 1;
    let y = if below + h <= win.y + win.height {
        below
    } else if cursor_y >= h {
        cursor_y - h
    } else {
        0
    };
    let right = if win.x + win.width >= w { win.x + win.width - w } else { 0 };
    let x = if anchor_x < right { anchor_x } else { right };
    ScreenRect { x, y, width: w, height: h }
}

/// The gutter text of a text row: on a line's first row its number, one
/// up from the index, right-aligned in all but the last gutter cell and
/// followed by a space; on its other rows blanks across the gutter.
pub open spec fn gutter_text(line_idx: nat, first_row: bool, gutter_w: nat) -> Seq<char> {
    if first_row {
        let d = dec(line_idx + 1);
        let pad: nat = if d.len() < gutter_w - 1 { (gutter_w - 1 - d.len()) as nat } else { 0 };
        Seq::new(pad, |_i: int| ' ') + d + seq![' ']
    } else {
        Seq::new(gutter_w, |_i: int| ' ')
    }
}

/// The gutter text of a row (see [`gutter_text`]).
pub fn gutter_cell_text(line_idx: usize, first_row: bool, gutter_w: usize) -> (s: String)
    requires
        gutter_w >= 1,
        line_idx < usize::MAX,
    ensures
        s@ == gutter_text(line_idx as nat, first_row, gutter_w as nat),
{
    let mut s = String::new();
    if first_row {
        let mut num = String::new();
        push_render(&mut num, (line_idx + 1) as u128, 10, 1, false);
        let n = crate::chars::chars_of(num.as_str()).len();
        let pad: usize = if n < gutter_w - 1 { gutter_w - 1 - n } else { 0 };
        let mut k: usize = 0;
        while k < pad
            invariant
                k <= pad,
                s@ == Seq::new(k as nat, |_i: int| ' '),
            decreases pad - k,
        {
            s.push(' ');
            k += 1;
            assert(s@ =~= Seq::new(k as nat, |_i: int| ' '));
        }
        crate::chars::push_str(&mut s, num.as_str());
        s.push(' ');
        assert(s@ =~= gutter_text(line_idx as nat, first_row, gutter_w as nat));
    } else {
        let mut k: usize = 0;
        while k < gutter_w
            invariant
                k <= gutter_w,
                s@ == Seq::new(k as nat, |_i: int| ' '),
            decreases gutter_w - k,
        {
            s.push(' ');
            k += 1;
            assert(s@ =~= Seq::new(k as nat, |_i: int| ' '));
        }
    }
    s
}

} // verus!
