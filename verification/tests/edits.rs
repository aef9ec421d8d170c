use unei::editing::buffer::{Buffer, Cursor};
use unei::editing::commands::Register;
use unei::editing::rope::rope_to_string;
use unei::editor::operator::EditState;
use unei::editor::Mode;

fn state(text: &str, line: usize, col: usize) -> EditState {
    EditState {
        buffer: Buffer::from_text(text),
        cursor: Cursor::new(line, col),
        mode: Mode::Normal,
        goal: Some(3),
        last_find: None,
        yank_reg: None,
        cut_reg: None,
        change_started: false,
    }
}

fn text(st: &EditState) -> String {
    rope_to_string(&st.buffer.rope)
}

fn at(st: &EditState) -> (usize, usize) {
    (st.cursor.line, st.cursor.col)
}

#[test]
fn put_charwise_after_and_before() {
    let mut st = state("abc\n", 0, 0);
    st.yank_reg = Some(Register::Char("XY".to_string()));
    assert!(st.paste(true, 2));
    assert_eq!(text(&st), "aXYXYbc\n");
    assert_eq!(at(&st), (0, 4));
    assert!(st.goal.is_none());
    let mut st = state("abc\n", 0, 1);
    st.yank_reg = Some(Register::Char("Z".to_string()));
    st.paste(false, 1);
    assert_eq!(text(&st), "aZbc\n");
    assert_eq!(at(&st), (0, 1));
}

#[test]
fn put_linewise_below_and_above() {
    let mut st = state("a\nb\n", 0, 0);
    st.yank_reg = Some(Register::Line("  x\n".to_string()));
    st.paste(true, 1);
    assert_eq!(text(&st), "a\n  x\nb\n");
    assert_eq!(at(&st), (1, 2));
    let mut st = state("a\nb\n", 1, 0);
    st.yank_reg = Some(Register::Line("x\n".to_string()));
    st.paste(false, 2);
    assert_eq!(text(&st), "a\nx\nx\nb\n");
    assert_eq!(at(&st), (1, 0));
}

#[test]
fn put_with_empty_register_does_nothing() {
    let mut st = state("a\n", 0, 0);
    assert!(!st.paste(true, 1));
    assert!(!st.paste_cut(true));
    assert_eq!(text(&st), "a\n");
}

#[test]
fn put_cut_register() {
    let mut st = state("a\n", 0, 0);
    st.cut_reg = Some(Register::Line("b\n".to_string()));
    assert!(st.paste_cut(true));
    assert_eq!(text(&st), "a\nb\n");
}

#[test]
fn delete_clusters_forward_and_back() {
    let mut st = state("abcd\n", 0, 1);
    st.delete_clusters(2, true);
    assert_eq!(text(&st), "ad\n");
    assert_eq!(st.cut_reg, Some(Register::Char("bc".to_string())));
    assert_eq!(at(&st), (0, 1));
    let mut st = state("abcd\n", 0, 3);
    st.delete_clusters(5, false);
    assert_eq!(text(&st), "d\n");
    assert_eq!(at(&st), (0, 0));
    // nothing before the first cluster
    let mut st = state("abcd\n", 0, 0);
    st.delete_clusters(1, false);
    assert_eq!(text(&st), "abcd\n");
    assert!(st.cut_reg.is_none());
}

#[test]
fn delete_cluster_keeps_combining_marks_together() {
    let mut st = state("ae\u{301}z\n", 0, 1);
    st.delete_clusters(1, true);
    assert_eq!(text(&st), "az\n");
}

#[test]
fn replace_chars_with_count() {
    let mut st = state("abcd\n", 0, 1);
    st.replace_chars('x', 2);
    assert_eq!(text(&st), "axxd\n");
    assert_eq!(at(&st), (0, 2));
    // too few chars left: nothing happens
    let mut st = state("ab\n", 0, 1);
    st.replace_chars('x', 3);
    assert_eq!(text(&st), "ab\n");
    st.replace_chars('\n', 1);
    assert_eq!(text(&st), "ab\n");
}

#[test]
fn undo_redo_counts_and_runs_out() {
    let mut st = state("abcd\n", 0, 0);
    st.delete_clusters(1, true);
    st.delete_clusters(1, true);
    assert_eq!(text(&st), "cd\n");
    assert!(!st.undo_redo(1, false));
    assert_eq!(text(&st), "bcd\n");
    assert!(st.undo_redo(5, false));
    assert_eq!(text(&st), "abcd\n");
    assert!(!st.undo_redo(2, true));
    assert_eq!(text(&st), "cd\n");
}

#[test]
fn clamp_keeps_cursor_on_text() {
    let mut st = state("ab\nc\n", 7, 9);
    st.clamp_cursor();
    assert_eq!(at(&st), (1, 0));
    let mut st = state("ab\n", 0, 9);
    st.mode = Mode::Insert;
    st.clamp_cursor();
    assert_eq!(at(&st), (0, 2));
}

#[test]
fn put_block_pads_and_adds_lines() {
    let mut st = state("abc\nx\n", 0, 1);
    st.yank_reg = Some(Register::Block(vec!["12".to_string(), "34".to_string(), "56".to_string()]));
    assert!(st.paste(true, 3));
    assert_eq!(text(&st), "ab12c\nx 34\n  56\n");
    assert_eq!(at(&st), (0, 1));
    assert!(st.goal.is_none());
    assert!(st.change_started);
}

#[test]
fn put_block_before_skips_empty_segments() {
    let mut st = state("ab\ncd\nef\n", 0, 1);
    st.cut_reg = Some(Register::Block(vec!["X".to_string(), String::new(), "Y".to_string()]));
    assert!(st.paste_cut(false));
    assert_eq!(text(&st), "aXb\ncd\neYf\n");
    assert_eq!(at(&st), (0, 1));
    assert!(!st.undo_redo(1, false));
    assert_eq!(text(&st), "ab\ncd\nef\n");
}
