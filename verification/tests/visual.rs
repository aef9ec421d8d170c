use unei::editing::buffer::{Buffer, Cursor};
use unei::editing::commands::{Op, Register, VisualKind};
use unei::editing::rope::rope_to_string;
use unei::editor::operator::EditState;
use unei::editor::Mode;
use unei::editor::visual_block::{block_segment, visual_block_rect};

fn state(text: &str, line: usize, col: usize, mode: Mode) -> EditState {
    EditState {
        buffer: Buffer::from_text(text),
        cursor: Cursor::new(line, col),
        mode,
        goal: Some(2),
        last_find: None,
        yank_reg: None,
        cut_reg: None,
        change_started: false,
    }
}

fn text(st: &EditState) -> String {
    rope_to_string(&st.buffer.rope)
}

fn at(st: &EditState) -> (usize, usize) {
    (st.cursor.line, st.cursor.col)
}

const CHARWISE: Mode = Mode::Visual(VisualKind::Char);
const LINEWISE: Mode = Mode::Visual(VisualKind::Line);

#[test]
fn charwise_delete_includes_both_ends_in_either_order() {
    let mut st = state("abcdef\n", 0, 1, CHARWISE);
    st.visual_operate(Cursor::new(0, 3), false, Op::Delete);
    assert_eq!(text(&st), "aef\n");
    assert_eq!(at(&st), (0, 1));
    assert_eq!(st.mode, Mode::Normal);
    assert!(matches!(&st.cut_reg, Some(Register::Char(s)) if s == "bcd"));
    let mut st = state("abcdef\n", 0, 3, CHARWISE);
    st.visual_operate(Cursor::new(0, 1), false, Op::Delete);
    assert_eq!(text(&st), "aef\n");
}

#[test]
fn charwise_yank_and_change() {
    let mut st = state("ab\ncd\n", 1, 0, CHARWISE);
    let e = st.visual_operate(Cursor::new(0, 1), false, Op::Yank);
    assert_eq!(e.clipboard.as_deref(), Some("b\nc"));
    assert!(matches!(&st.yank_reg, Some(Register::Char(s)) if s == "b\nc"));
    assert_eq!(text(&st), "ab\ncd\n");
    assert_eq!(at(&st), (0, 1));
    let mut st = state("abc\n", 0, 1, CHARWISE);
    st.visual_operate(Cursor::new(0, 1), false, Op::Change);
    assert_eq!(text(&st), "ac\n");
    assert_eq!(st.mode, Mode::Insert);
}

#[test]
fn linewise_delete_takes_whole_lines() {
    let mut st = state("a\nb\nc\nd\n", 2, 0, LINEWISE);
    st.visual_operate(Cursor::new(1, 0), true, Op::Delete);
    assert_eq!(text(&st), "a\nd\n");
    assert!(matches!(&st.cut_reg, Some(Register::Line(s)) if s == "b\nc\n"));
}

#[test]
fn visual_tilde_charwise_and_linewise() {
    let mut st = state("hello world\n", 0, 4, CHARWISE);
    st.visual_toggle_case(Cursor::new(0, 0), false);
    assert_eq!(text(&st), "HELLO world\n");
    assert_eq!(at(&st), (0, 0));
    assert_eq!(st.mode, Mode::Normal);
    assert!(st.change_started);
    let mut st = state("ab\ncD\nef\n", 1, 1, LINEWISE);
    st.visual_toggle_case(Cursor::new(0, 1), true);
    assert_eq!(text(&st), "AB\nCd\nef\n");
    assert_eq!(at(&st), (0, 0));
}

#[test]
fn visual_paste_replaces_without_touching_registers() {
    let mut st = state("abcdef\n", 0, 1, CHARWISE);
    st.yank_reg = Some(Register::Char("XY".to_string()));
    st.visual_paste(Cursor::new(0, 2), false);
    assert_eq!(text(&st), "aXYdef\n");
    assert_eq!(at(&st), (0, 2));
    assert!(matches!(&st.yank_reg, Some(Register::Char(s)) if s == "XY"));
    assert!(st.cut_reg.is_none());
    // a linewise register lands on a line of its own
    let mut st = state("abcd\n", 0, 1, CHARWISE);
    st.yank_reg = Some(Register::Line("L\n".to_string()));
    st.visual_paste(Cursor::new(0, 2), false);
    assert_eq!(text(&st), "a\nL\nd\n");
    assert_eq!(at(&st), (1, 0));
}

#[test]
fn linewise_paste_replaces_lines() {
    let mut st = state("a\nb\nc\n", 1, 0, LINEWISE);
    st.yank_reg = Some(Register::Char("  x".to_string()));
    st.visual_paste(Cursor::new(1, 0), true);
    assert_eq!(text(&st), "a\n  x\nc\n");
    assert_eq!(at(&st), (1, 2));
    let mut st = state("a\nb\n", 0, 0, LINEWISE);
    st.yank_reg = Some(Register::Block(vec!["p".to_string(), "q".to_string()]));
    st.visual_paste(Cursor::new(1, 0), true);
    assert_eq!(text(&st), "p\nq\n");
    // replacing everything by nothing keeps one empty line
    let mut st = state("a\n", 0, 0, LINEWISE);
    st.yank_reg = Some(Register::Line(String::new()));
    st.visual_paste(Cursor::new(0, 0), true);
    assert_eq!(text(&st), "\n");
}

#[test]
fn visual_paste_without_a_register_just_leaves() {
    let mut st = state("ab\n", 0, 1, CHARWISE);
    st.visual_paste(Cursor::new(0, 0), false);
    assert_eq!(text(&st), "ab\n");
    assert_eq!(st.mode, Mode::Normal);
    assert_eq!(st.goal, Some(2));
}

#[test]
fn charwise_paste_of_a_block_puts_it_where_the_selection_began() {
    let mut st = state("abcdef\nxy\n", 0, 1, CHARWISE);
    st.yank_reg = Some(Register::Block(vec!["12".to_string(), "34".to_string()]));
    st.visual_paste(Cursor::new(0, 2), false);
    assert_eq!(text(&st), "a12def\nx34y\n");
    assert_eq!(at(&st), (0, 1));
    assert_eq!(st.mode, Mode::Normal);
    assert!(matches!(&st.yank_reg, Some(Register::Block(v)) if v.len() == 2));
}

#[test]
fn block_yank_takes_each_lines_share_of_the_rectangle() {
    let mut st = state("abcdef\nxy\n\tz12\n", 2, 0, Mode::Visual(VisualKind::Block));
    let anchor = Cursor::new(0, 1);
    assert_eq!(visual_block_rect(&st.buffer.rope, anchor, st.cursor), (0, 2, 0, 1));
    assert_eq!(block_segment(&st.buffer.rope, 1, 1, 2), Some((1, 2)));
    assert_eq!(block_segment(&st.buffer.rope, 1, 2, 3), None);
    st.visual_block_yank(anchor);
    assert_eq!(st.yank_reg, Some(Register::Block(vec!["ab".to_string(), "xy".to_string(), "\t".to_string()])));
    assert_eq!(at(&st), (0, 0));
    assert_eq!(st.mode, Mode::Normal);
    assert_eq!(text(&st), "abcdef\nxy\n\tz12\n");
}

#[test]
fn block_delete_cuts_each_lines_share() {
    let mut st = state("abcdef\nxy\n\tz12\n", 2, 0, Mode::Visual(VisualKind::Block));
    st.visual_block_delete(Cursor::new(0, 1));
    assert_eq!(text(&st), "cdef\n\nz12\n");
    assert_eq!(st.cut_reg, Some(Register::Block(vec!["ab".to_string(), "xy".to_string(), "\t".to_string()])));
    assert_eq!(st.yank_reg, None);
    assert_eq!(at(&st), (0, 0));
    assert_eq!(st.mode, Mode::Normal);
    assert!(!st.undo_redo(1, false));
    assert_eq!(text(&st), "abcdef\nxy\n\tz12\n");
}

#[test]
fn block_change_types_on_every_line_of_the_block() {
    let mut st = state("abcd\nefgh\nij\n", 2, 1, Mode::Visual(VisualKind::Block));
    let bc = st.visual_block_change(Cursor::new(0, 2));
    assert_eq!(text(&st), "ad\neh\ni\n");
    assert_eq!(st.cut_reg, Some(Register::Block(vec!["bc".to_string(), "fg".to_string(), "j".to_string()])));
    assert_eq!(st.mode, Mode::Insert);
    assert_eq!(at(&st), (0, 1));
    assert_eq!((bc.top_line, bc.col, bc.lines.clone()), (0, 1, vec![1, 2]));
    st.buffer.insert(1, "XY");
    st.cursor = Cursor::new(0, 3);
    st.finish_block_change(&bc);
    assert_eq!(text(&st), "aXYd\neXYh\niXY\n");
    st.leave_insert();
    assert!(!st.undo_redo(1, false));
    assert_eq!(text(&st), "abcd\nefgh\nij\n");
}
