use unei::editing::buffer::{Buffer, Cursor};
use unei::editing::rope::rope_to_string;
use unei::editor::operator::EditState;
use unei::config::keymap::Key;
use unei::editing::commands::InsertEntry;
use unei::editor::Mode;

fn state(text: &str, line: usize, col: usize) -> EditState {
    EditState {
        buffer: Buffer::from_text(text),
        cursor: Cursor::new(line, col),
        mode: Mode::Insert,
        goal: Some(7),
        last_find: None,
        yank_reg: None,
        cut_reg: None,
        change_started: true,
    }
}

fn text(st: &EditState) -> String {
    rope_to_string(&st.buffer.rope)
}

fn at(st: &EditState) -> (usize, usize) {
    (st.cursor.line, st.cursor.col)
}

#[test]
fn typed_text_moves_past_it() {
    let mut st = state("ab\n", 0, 1);
    st.insert_text("xy");
    assert_eq!(text(&st), "axyb\n");
    assert_eq!(at(&st), (0, 3));
    assert!(st.goal.is_none());
    assert_eq!(st.mode, Mode::Insert);
}

#[test]
fn typed_break_lands_after_the_indent() {
    let mut st = state("ab\n", 0, 1);
    st.insert_text("\n  ");
    assert_eq!(text(&st), "a\n  b\n");
    assert_eq!(at(&st), (1, 2));
    let mut st = state("x\n", 0, 1);
    st.insert_text("1\n2\n34");
    assert_eq!(text(&st), "x1\n2\n34\n");
    assert_eq!(at(&st), (2, 2));
}

#[test]
fn backspace_removes_the_cluster_before() {
    let mut st = state("abc\n", 0, 2);
    st.backspace();
    assert_eq!(text(&st), "ac\n");
    assert_eq!(at(&st), (0, 1));
    assert!(st.goal.is_none());
    // a combining pair goes as one
    let mut st = state("xe\u{301}y\n", 0, 3);
    st.backspace();
    assert_eq!(text(&st), "xy\n");
    assert_eq!(at(&st), (0, 1));
}

#[test]
fn backspace_at_line_start_joins_lines() {
    let mut st = state("ab\ncd\n", 1, 0);
    st.backspace();
    assert_eq!(text(&st), "abcd\n");
    assert_eq!(at(&st), (0, 2));
    let mut st = state("ab\n", 0, 0);
    st.backspace();
    assert_eq!(text(&st), "ab\n");
    assert_eq!(at(&st), (0, 0));
}

#[test]
fn delete_removes_the_cluster_under() {
    let mut st = state("abc\n", 0, 1);
    st.delete_forward();
    assert_eq!(text(&st), "ac\n");
    assert_eq!(at(&st), (0, 1));
    assert_eq!(st.goal, Some(7));
}

#[test]
fn delete_at_line_end_joins_but_keeps_final_break() {
    let mut st = state("ab\ncd\n", 0, 2);
    st.delete_forward();
    assert_eq!(text(&st), "abcd\n");
    assert_eq!(at(&st), (0, 2));
    let mut st = state("ab\n", 0, 2);
    st.delete_forward();
    assert_eq!(text(&st), "ab\n");
}

#[test]
fn ctrl_u_deletes_to_indent_then_to_start() {
    let mut st = state("  abc\n", 0, 4);
    st.delete_to_line_start();
    assert_eq!(text(&st), "  c\n");
    assert_eq!(at(&st), (0, 2));
    st.delete_to_line_start();
    assert_eq!(text(&st), "c\n");
    assert_eq!(at(&st), (0, 0));
    st.delete_to_line_start();
    assert_eq!(text(&st), "c\n");
}

#[test]
fn ctrl_w_deletes_blanks_then_a_word() {
    let mut st = state("foo bar  \n", 0, 9);
    st.delete_word_back();
    assert_eq!(text(&st), "foo \n");
    assert_eq!(at(&st), (0, 4));
    let mut st = state("a.b::\n", 0, 5);
    st.delete_word_back();
    assert_eq!(text(&st), "a.b\n");
    assert_eq!(at(&st), (0, 3));
    let mut st = state("ab\n", 0, 0);
    st.delete_word_back();
    assert_eq!(text(&st), "ab\n");
    assert_eq!(at(&st), (0, 0));
}

#[test]
fn enter_keeps_the_indent_and_tab_reaches_the_next_stop() {
    let mut st = state("    ab\n", 0, 5);
    assert!(!st.insert_key(Key::Enter));
    assert_eq!(text(&st), "    a\n    b\n");
    assert_eq!(at(&st), (1, 4));
    let mut st = state("ab\n", 0, 1);
    st.insert_key(Key::Tab);
    assert_eq!(text(&st), "a   b\n");
    assert_eq!(at(&st), (0, 4));
    st.insert_key(Key::Tab);
    assert_eq!(text(&st), "a       b\n");
    assert_eq!(at(&st), (0, 8));
    st.insert_key(Key::Char('z'));
    assert_eq!(text(&st), "a       zb\n");
}

#[test]
fn arrows_home_and_end_in_insert_mode() {
    let mut st = state("abc\nx\n", 0, 3);
    st.insert_key(Key::Left);
    assert_eq!(at(&st), (0, 2));
    st.insert_key(Key::Right);
    assert_eq!(at(&st), (0, 3));
    st.insert_key(Key::Right);
    assert_eq!(at(&st), (0, 3));
    st.insert_key(Key::Home);
    assert_eq!(at(&st), (0, 0));
    st.insert_key(Key::Left);
    assert_eq!(at(&st), (0, 0));
    st.insert_key(Key::End);
    assert_eq!(at(&st), (0, 3));
    assert!(st.goal.is_none());
    // down from past the end: the short line's end, goal kept
    st.insert_key(Key::Down);
    assert_eq!(at(&st), (1, 1));
    assert_eq!(st.goal, Some(3));
    st.insert_key(Key::Down);
    assert_eq!(at(&st), (1, 1));
    st.insert_key(Key::Up);
    assert_eq!(at(&st), (0, 3));
    assert_eq!(text(&st), "abc\nx\n");
}

#[test]
fn leaving_keys_change_nothing() {
    let mut st = state("ab\n", 0, 1);
    assert!(st.insert_key(Key::Esc));
    assert!(st.insert_key(Key::Ctrl('c')));
    assert!(st.insert_key(Key::Ctrl('[')));
    assert_eq!(text(&st), "ab\n");
    assert_eq!(at(&st), (0, 1));
    assert_eq!(st.goal, Some(7));
}

#[test]
fn leave_insert_steps_back_onto_a_cluster() {
    let mut st = state("abc\n", 0, 2);
    st.buffer.begin_change(Cursor::new(0, 2));
    st.insert_text("X");
    assert!(st.leave_insert());
    assert_eq!(st.mode, Mode::Normal);
    assert_eq!(at(&st), (0, 2));
    assert!(st.goal.is_none());
    let mut st = state("abc\n", 0, 0);
    assert!(!st.leave_insert());
    assert_eq!(at(&st), (0, 0));
    let mut st = state("\n", 0, 0);
    st.leave_insert();
    assert_eq!(at(&st), (0, 0));
}

fn normal(text: &str, line: usize, col: usize) -> EditState {
    let mut st = state(text, line, col);
    st.mode = Mode::Normal;
    st.change_started = false;
    st
}

#[test]
fn entries_that_stay_on_the_line() {
    let mut st = normal("  abc\n", 0, 3);
    st.enter_insert(InsertEntry::Before);
    assert_eq!(at(&st), (0, 3));
    assert_eq!(st.mode, Mode::Insert);
    assert!(st.goal.is_none());
    let mut st = normal("  abc\n", 0, 3);
    st.enter_insert(InsertEntry::FirstNonBlank);
    assert_eq!(at(&st), (0, 2));
    let mut st = normal("   \n", 0, 0);
    st.enter_insert(InsertEntry::FirstNonBlank);
    assert_eq!(at(&st), (0, 3));
    let mut st = normal("ae\u{301}c\n", 0, 1);
    st.enter_insert(InsertEntry::After);
    assert_eq!(at(&st), (0, 3));
    let mut st = normal("abc\n", 0, 0);
    st.enter_insert(InsertEntry::LineEnd);
    assert_eq!(at(&st), (0, 3));
    assert_eq!(text(&st), "abc\n");
}

#[test]
fn open_line_below_and_above_keep_the_indent() {
    let mut st = normal("  a\nb\n", 0, 2);
    st.enter_insert(InsertEntry::OpenBelow);
    assert_eq!(text(&st), "  a\n  \nb\n");
    assert_eq!(at(&st), (1, 2));
    let mut st = normal("a\n\tb\n", 1, 1);
    st.enter_insert(InsertEntry::OpenAbove);
    assert_eq!(text(&st), "a\n\t\n\tb\n");
    assert_eq!(at(&st), (1, 1));
    // the opened line and the typed text undo as one change
    st.insert_text("x");
    assert!(st.leave_insert());
    assert_eq!(text(&st), "a\n\tx\n\tb\n");
    let back = st.buffer.undo(st.cursor);
    assert_eq!(rope_to_string(&st.buffer.rope), "a\n\tb\n");
    assert_eq!(back, Some(Cursor::new(1, 1)));
}
