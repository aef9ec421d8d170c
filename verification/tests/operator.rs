use unei::editing::buffer::{Buffer, Cursor};
use unei::editing::commands::{FindKind, Op, Register};
use unei::editing::motion::Motion;
use unei::editing::rope::rope_to_string;
use unei::editor::operator::EditState;
use unei::editor::{FlashRegion, Mode};

fn state(text: &str, line: usize, col: usize) -> EditState {
    EditState {
        buffer: Buffer::from_text(text),
        cursor: Cursor::new(line, col),
        mode: Mode::Normal,
        goal: None,
        last_find: None,
        yank_reg: None,
        cut_reg: None,
        change_started: false,
    }
}

fn text(st: &EditState) -> String {
    rope_to_string(&st.buffer.rope)
}

fn at(st: &EditState) -> (usize, usize) {
    (st.cursor.line, st.cursor.col)
}

#[test]
fn delete_word() {
    let mut st = state("foo bar\n", 0, 0);
    let e = st.apply_operator(Op::Delete, Motion::WordForward { big: false }, None);
    assert_eq!(text(&st), "bar\n");
    assert_eq!(st.cut_reg, Some(Register::Char("foo ".to_string())));
    assert_eq!(at(&st), (0, 0));
    assert!(e.clipboard.is_none() && e.flash.is_none());
    assert!(st.change_started);
    assert!(st.buffer.undo(st.cursor).is_some());
    assert_eq!(text(&st), "foo bar\n");
}

#[test]
fn change_word_acts_like_change_to_end() {
    let mut st = state("foo bar\n", 0, 0);
    st.apply_operator(Op::Change, Motion::WordForward { big: false }, None);
    assert_eq!(text(&st), " bar\n");
    assert_eq!(st.cut_reg, Some(Register::Char("foo".to_string())));
    assert_eq!(st.mode, Mode::Insert);
    assert_eq!(at(&st), (0, 0));
}

#[test]
fn delete_word_at_line_end_stops_there() {
    let mut st = state("foo\nbar\n", 0, 0);
    st.apply_operator(Op::Delete, Motion::WordForward { big: false }, None);
    assert_eq!(text(&st), "\nbar\n");
}

#[test]
fn yank_lines_keeps_text_and_flashes() {
    let mut st = state("a\nb\nc\n", 0, 0);
    let e = st.apply_operator(Op::Yank, Motion::Down, None);
    assert_eq!(text(&st), "a\nb\nc\n");
    assert_eq!(st.yank_reg, Some(Register::Line("a\nb\n".to_string())));
    assert_eq!(e.clipboard, Some("a\nb\n".to_string()));
    assert!(matches!(e.flash, Some(FlashRegion::Line(0, 1))));
    assert_eq!(at(&st), (0, 0));
}

#[test]
fn delete_lines_and_whole_buffer() {
    let mut st = state("a\nb\nc\n", 0, 0);
    st.apply_operator(Op::Delete, Motion::Down, None);
    assert_eq!(text(&st), "c\n");
    assert_eq!(st.cut_reg, Some(Register::Line("a\nb\n".to_string())));
    let mut st = state("a\nb\n", 0, 0);
    st.apply_operator(Op::Delete, Motion::GotoLast, None);
    assert_eq!(text(&st), "\n");
    assert_eq!(at(&st), (0, 0));
}

#[test]
fn change_lines_keeps_indent() {
    let mut st = state("  a\n  b\nc\n", 0, 0);
    st.apply_operator(Op::Change, Motion::Down, None);
    assert_eq!(text(&st), "  \nc\n");
    assert_eq!(at(&st), (0, 2));
    assert_eq!(st.mode, Mode::Insert);
}

#[test]
fn delete_to_line_end_is_inclusive() {
    let mut st = state("abc\n", 0, 1);
    st.apply_operator(Op::Delete, Motion::LineEnd, None);
    assert_eq!(text(&st), "a\n");
    assert_eq!(at(&st), (0, 0));
}

#[test]
fn delete_find_remembers_the_find() {
    let mut st = state("abcd\n", 0, 0);
    st.apply_operator(Op::Delete, Motion::Find { kind: FindKind::To, ch: 'c' }, None);
    assert_eq!(text(&st), "d\n");
    assert_eq!(st.last_find, Some((FindKind::To, 'c')));
}

#[test]
fn change_with_empty_range_enters_insert() {
    let mut st = state("abc\n", 0, 0);
    st.apply_operator(Op::Change, Motion::LineStart, None);
    assert_eq!(text(&st), "abc\n");
    assert_eq!(st.mode, Mode::Insert);
}

#[test]
fn failing_motion_changes_nothing() {
    let mut st = state("a\n", 0, 0);
    let e = st.apply_operator(Op::Delete, Motion::Up, None);
    assert_eq!(text(&st), "a\n");
    assert!(st.cut_reg.is_none());
    assert!(e.flash.is_none());
}

#[test]
fn yank_backward_moves_cursor_to_start() {
    let mut st = state("foo bar\n", 0, 4);
    let e = st.apply_operator(Op::Yank, Motion::WordBack { big: false }, None);
    assert_eq!(st.yank_reg, Some(Register::Char("foo ".to_string())));
    assert_eq!(at(&st), (0, 0));
    assert!(matches!(e.flash, Some(FlashRegion::Char(0, 4))));
}
