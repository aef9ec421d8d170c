use unei::editing::buffer::{Buffer, Cursor};
use unei::editing::motion::Motion;
use unei::editing::rope::rope_to_string;
use unei::editor::operator::EditState;
use unei::editor::Mode;

fn state(text: &str, line: usize, col: usize) -> EditState {
    EditState {
        buffer: Buffer::from_text(text),
        cursor: Cursor::new(line, col),
        mode: Mode::Normal,
        goal: Some(1),
        last_find: None,
        yank_reg: None,
        cut_reg: None,
        change_started: false,
    }
}

fn text(st: &EditState) -> String {
    rope_to_string(&st.buffer.rope)
}

#[test]
fn indent_then_dedent_round_trips() {
    let mut st = state("a\n    b\n\tc\n  d\n\n", 2, 1);
    st.shift_lines(0, 4, true);
    assert_eq!(text(&st), "    a\n        b\n    \tc\n      d\n\n");
    assert_eq!((st.cursor.line, st.cursor.col), (0, 4));
    assert!(st.goal.is_none());
    assert!(st.change_started);
    st.shift_lines(0, 4, false);
    assert_eq!(text(&st), "a\n    b\n\tc\n  d\n\n");
    assert_eq!((st.cursor.line, st.cursor.col), (0, 0));
}

#[test]
fn dedent_takes_a_tab_or_up_to_a_shiftwidth_of_spaces() {
    let mut st = state("\t\tx\n      y\n z\nw\n", 0, 0);
    st.shift_lines(0, 9, false);
    assert_eq!(text(&st), "\tx\n  y\nz\nw\n");
    assert_eq!((st.cursor.line, st.cursor.col), (0, 1));
}

#[test]
fn shift_is_one_undo_step() {
    let mut st = state("a\nb\n", 0, 0);
    st.shift_lines(0, 1, true);
    assert_eq!(text(&st), "    a\n    b\n");
    assert!(!st.undo_redo(1, false));
    assert_eq!(text(&st), "a\nb\n");
}

#[test]
fn shift_over_a_motion_covers_its_lines() {
    let mut st = state("a\nb\nc\n", 0, 0);
    st.shift_motion(true, Motion::Down, Some(1));
    assert_eq!(text(&st), "    a\n    b\nc\n");
    let mut st = state("ab cd\nx\n", 0, 0);
    st.shift_motion(true, Motion::WordForward { big: false }, None);
    assert_eq!(text(&st), "    ab cd\nx\n");
}
