use unei::chars::toggle_char;
use unei::editing::buffer::{Buffer, Cursor};
use unei::editing::commands::{Register, SimpleCmd};
use unei::editing::rope::rope_to_string;
use unei::editor::operator::EditState;
use unei::editor::simple::{is_lf_only, SimpleOutcome};
use unei::editor::Mode;

fn state(text: &str, line: usize, col: usize) -> EditState {
    EditState {
        buffer: Buffer::from_text(text),
        cursor: Cursor::new(line, col),
        mode: Mode::Normal,
        goal: Some(5),
        last_find: None,
        yank_reg: None,
        cut_reg: None,
        change_started: false,
    }
}

fn text(st: &EditState) -> String {
    rope_to_string(&st.buffer.rope)
}

fn at(st: &EditState) -> (usize, usize) {
    (st.cursor.line, st.cursor.col)
}

#[test]
fn toggle_char_maps_one_for_one() {
    assert_eq!(toggle_char('a'), 'A');
    assert_eq!(toggle_char('Q'), 'q');
    assert_eq!(toggle_char('7'), '7');
    assert_eq!(toggle_char('é'), 'É');
    // ß uppercases to "SS"; the one-char capital takes its place
    assert_eq!(toggle_char('ß'), 'ẞ');
    // ŉ uppercases to two chars and has no one-char capital: it stays
    assert_eq!(toggle_char('ŉ'), 'ŉ');
}

#[test]
fn tilde_toggles_and_moves_on() {
    let mut st = state("abC d\n", 0, 1);
    st.toggle_case(2);
    assert_eq!(text(&st), "aBc d\n");
    assert_eq!(at(&st), (0, 3));
    assert!(st.change_started);
    assert!(st.goal.is_none());
    // a count past the line's end stops at its last cluster
    let mut st = state("xy\n", 0, 0);
    st.toggle_case(10);
    assert_eq!(text(&st), "XY\n");
    assert_eq!(at(&st), (0, 1));
    // the change undoes as one
    st.buffer.undo(st.cursor);
    assert_eq!(rope_to_string(&st.buffer.rope), "xy\n");
}

#[test]
fn tilde_on_an_empty_line_does_nothing() {
    let mut st = state("\nab\n", 0, 0);
    st.toggle_case(1);
    assert_eq!(text(&st), "\nab\n");
    assert!(!st.change_started);
    assert_eq!(st.goal, Some(5));
}

#[test]
fn join_puts_one_space_and_drops_leading_blanks() {
    let mut st = state("a\n   b\nc\n", 0, 0);
    st.join_lines(1);
    assert_eq!(text(&st), "a b\nc\n");
    assert_eq!(at(&st), (0, 1));
    let mut st = state("a\n   b\nc\n", 0, 0);
    st.join_lines(3);
    assert_eq!(text(&st), "a b c\n");
    assert_eq!(at(&st), (0, 3));
}

#[test]
fn join_without_a_space() {
    // empty line: no space
    let mut st = state("\nb\n", 0, 0);
    st.join_lines(2);
    assert_eq!(text(&st), "b\n");
    // blank next line: no space
    let mut st = state("a\n  \nc\n", 0, 0);
    st.join_lines(2);
    assert_eq!(text(&st), "a\nc\n");
    // the last line has nothing to join
    let mut st = state("a\nb\n", 1, 0);
    st.join_lines(2);
    assert_eq!(text(&st), "a\nb\n");
    assert!(!st.change_started);
}

#[test]
fn subst_cuts_clusters_and_enters_insert_mode() {
    let mut st = state("abcd\n", 0, 1);
    st.subst_chars(2);
    assert_eq!(text(&st), "ad\n");
    assert_eq!(at(&st), (0, 1));
    assert_eq!(st.mode, Mode::Insert);
    assert!(matches!(&st.cut_reg, Some(Register::Char(s)) if s == "bc"));
    // on an empty line nothing is cut, but insert mode begins
    let mut st = state("\n", 0, 0);
    st.subst_chars(1);
    assert!(st.cut_reg.is_none());
    assert_eq!(st.mode, Mode::Insert);
}

#[test]
fn simple_dispatches_counted_commands() {
    let mut st = state("abcd\n", 0, 0);
    assert!(matches!(st.simple(SimpleCmd::DeleteRight, Some(2)), SimpleOutcome::Done(_)));
    assert_eq!(text(&st), "cd\n");
    let mut st = state("abcd\n", 0, 1);
    st.simple(SimpleCmd::DeleteToEol, None);
    assert_eq!(text(&st), "a\n");
    let mut st = state("abcd\n", 0, 1);
    match st.simple(SimpleCmd::YankToEol, None) {
        SimpleOutcome::Done(e) => assert_eq!(e.clipboard.as_deref(), Some("bcd")),
        _ => panic!("yank is carried out"),
    }
    let mut st = state("a\nb\nc\n", 0, 0);
    st.simple(SimpleCmd::SubstLine, Some(2));
    assert_eq!(text(&st), "\nc\n");
    assert_eq!(st.mode, Mode::Insert);
    let mut st = state("a\n", 0, 0);
    assert!(matches!(st.simple(SimpleCmd::Undo, None), SimpleOutcome::RanOut));
    let mut st = state("a\n", 0, 0);
    assert!(matches!(
        st.simple(SimpleCmd::NextMatch, Some(3)),
        SimpleOutcome::Editor(SimpleCmd::NextMatch, Some(3))
    ));
    assert_eq!(text(&st), "a\n");
}

#[test]
fn lf_only_detects_carriage_returns() {
    assert!(is_lf_only(&Buffer::from_text("a\nb\n").rope));
    assert!(!is_lf_only(&Buffer::from_text("a\r\nb\n").rope));
}
