use unei::editor::screen::{cmdline_cursor_x, cursor_screen, gutter_cell_text, popup_rect, ScreenRect};

#[test]
fn the_text_cursor_stays_inside_its_window() {
    let r = ScreenRect { x: 10, y: 2, width: 20, height: 8 };
    assert_eq!(cursor_screen(&r, 4, 3, 5), (19, 5));
    assert_eq!(cursor_screen(&r, 4, 9, 40), (29, 8));
    assert_eq!(cmdline_cursor_x(3, 80), 4);
    assert_eq!(cmdline_cursor_x(200, 80), 79);
}

#[test]
fn the_completion_popup_goes_below_or_above() {
    let win = ScreenRect { x: 0, y: 0, width: 40, height: 20 };
    let p = popup_rect(5, 3, &win, 4, 6, 4);
    assert_eq!((p.x, p.y, p.width, p.height), (5, 4, 14, 4));
    let p = popup_rect(35, 18, &win, 30, 20, 10);
    assert_eq!((p.x, p.y, p.width, p.height), (7, 8, 33, 10));
}

#[test]
fn gutter_numbers_are_right_aligned() {
    assert_eq!(gutter_cell_text(6, true, 4), "  7 ");
    assert_eq!(gutter_cell_text(6, false, 4), "    ");
    assert_eq!(gutter_cell_text(1233, true, 3), "1234 ");
}
