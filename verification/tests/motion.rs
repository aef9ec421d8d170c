use ropey::Rope;
use unei::editing::buffer::Cursor;
use unei::editing::commands::FindKind;
use unei::editing::motion::{resolve, Motion, MotionCtx, MotionKind};
use unei::editing::rope::rope_from_str;

fn ctx(rope: &Rope) -> MotionCtx<'_> {
    MotionCtx {
        rope,
        goal: None,
        last_find: None,
        tabstop: 4,
        for_operator: false,
    }
}

fn mv(rope: &Rope, cur: (usize, usize), m: Motion) -> (usize, usize) {
    let out = resolve(m, None, Cursor::new(cur.0, cur.1), &ctx(rope)).unwrap();
    (out.cursor.line, out.cursor.col)
}

#[test]
fn word_forward_basics() {
    let r = rope_from_str("foo bar_baz  qux\n");
    assert_eq!(mv(&r, (0, 0), Motion::WordForward { big: false }), (0, 4));
    assert_eq!(mv(&r, (0, 4), Motion::WordForward { big: false }), (0, 13));
}

#[test]
fn word_forward_punctuation_and_big() {
    let r = rope_from_str("foo.bar qux\n");
    assert_eq!(mv(&r, (0, 0), Motion::WordForward { big: false }), (0, 3));
    assert_eq!(mv(&r, (0, 3), Motion::WordForward { big: false }), (0, 4));
    assert_eq!(mv(&r, (0, 0), Motion::WordForward { big: true }), (0, 8));
}

#[test]
fn word_forward_stops_on_empty_line() {
    let r = rope_from_str("foo\n\nbar\n");
    assert_eq!(mv(&r, (0, 0), Motion::WordForward { big: false }), (1, 0));
    assert_eq!(mv(&r, (1, 0), Motion::WordForward { big: false }), (2, 0));
}

#[test]
fn word_back_and_end() {
    let r = rope_from_str("foo bar baz\n");
    assert_eq!(mv(&r, (0, 8), Motion::WordBack { big: false }), (0, 4));
    assert_eq!(mv(&r, (0, 5), Motion::WordBack { big: false }), (0, 4));
    assert_eq!(mv(&r, (0, 0), Motion::WordEnd { big: false }), (0, 2));
    assert_eq!(mv(&r, (0, 2), Motion::WordEnd { big: false }), (0, 6));
}

#[test]
fn word_at_buffer_end_clamps() {
    let r = rope_from_str("foo bar\n");
    assert_eq!(mv(&r, (0, 4), Motion::WordForward { big: false }), (0, 6));
    assert_eq!(mv(&r, (0, 6), Motion::WordEnd { big: false }), (0, 6));
}

#[test]
fn vertical_uses_goal_column() {
    let r = rope_from_str("a long line\nx\nanother long\n");
    let out = resolve(Motion::Down, None, Cursor::new(0, 6), &ctx(&r)).unwrap();
    assert_eq!((out.cursor.line, out.cursor.col), (1, 0));
    let mut c = ctx(&r);
    c.goal = out.new_goal;
    let out2 = resolve(Motion::Down, None, out.cursor, &c).unwrap();
    assert_eq!((out2.cursor.line, out2.cursor.col), (2, 6));
}

#[test]
fn vertical_at_edges_fails() {
    let r = rope_from_str("a\nb\n");
    assert!(resolve(Motion::Up, None, Cursor::new(0, 0), &ctx(&r)).is_none());
    assert!(resolve(Motion::Down, None, Cursor::new(1, 0), &ctx(&r)).is_none());
    assert_eq!(mv(&r, (1, 0), Motion::Up), (0, 0));
}

#[test]
fn goto_with_count() {
    let r = rope_from_str("one\ntwo\n  three\n");
    let out = resolve(Motion::GotoLast, Some(3), Cursor::new(0, 0), &ctx(&r)).unwrap();
    assert_eq!((out.cursor.line, out.cursor.col), (2, 2));
    let out = resolve(Motion::GotoFirst, None, Cursor::new(2, 0), &ctx(&r)).unwrap();
    assert_eq!(out.cursor.line, 0);
}

#[test]
fn find_and_till() {
    let r = rope_from_str("abcabc\n");
    let m = Motion::Find { kind: FindKind::To, ch: 'c' };
    assert_eq!(mv(&r, (0, 0), m), (0, 2));
    let out = resolve(m, Some(2), Cursor::new(0, 0), &ctx(&r)).unwrap();
    assert_eq!(out.cursor.col, 5);
    let m = Motion::Find { kind: FindKind::Till, ch: 'c' };
    assert_eq!(mv(&r, (0, 0), m), (0, 1));
    let m = Motion::Find { kind: FindKind::ToBack, ch: 'a' };
    assert_eq!(mv(&r, (0, 5), m), (0, 3));
    assert!(resolve(
        Motion::Find { kind: FindKind::To, ch: 'z' },
        None,
        Cursor::new(0, 0),
        &ctx(&r)
    )
    .is_none());
}

#[test]
fn repeat_till_is_not_stuck() {
    let r = rope_from_str("xaxa\n");
    let m = Motion::Find { kind: FindKind::Till, ch: 'a' };
    let out = resolve(m, None, Cursor::new(0, 0), &ctx(&r)).unwrap();
    assert_eq!(out.cursor.col, 0);
    let mut c = ctx(&r);
    c.last_find = Some((FindKind::Till, 'a'));
    let out = resolve(Motion::RepeatFind, None, Cursor::new(0, 0), &c).unwrap();
    assert_eq!(out.cursor.col, 2);
}

#[test]
fn paragraph_motions() {
    let r = rope_from_str("a\nb\n\nc\nd\n\n\ne\n");
    assert_eq!(mv(&r, (0, 0), Motion::ParaForward), (2, 0));
    assert_eq!(mv(&r, (2, 0), Motion::ParaForward), (5, 0));
    assert_eq!(mv(&r, (7, 0), Motion::ParaBack), (6, 0));
    assert_eq!(mv(&r, (3, 0), Motion::ParaBack), (2, 0));
    assert_eq!(mv(&r, (1, 0), Motion::ParaBack), (0, 0));
}

#[test]
fn left_right_respect_graphemes() {
    let r = rope_from_str("ae\u{301}z\n");
    assert_eq!(mv(&r, (0, 0), Motion::Right), (0, 1));
    assert_eq!(mv(&r, (0, 1), Motion::Right), (0, 3));
    assert_eq!(mv(&r, (0, 3), Motion::Left), (0, 1));
    assert_eq!(mv(&r, (0, 3), Motion::Right), (0, 3));
}

#[test]
fn operator_right_may_reach_line_end() {
    let r = rope_from_str("ab\n");
    let mut c = ctx(&r);
    c.for_operator = true;
    let out = resolve(Motion::Right, Some(5), Cursor::new(0, 0), &c).unwrap();
    assert_eq!((out.cursor.line, out.cursor.col), (0, 2));
    assert_eq!(out.kind, MotionKind::Exclusive);
}

#[test]
fn line_end_and_first_non_blank() {
    let r = rope_from_str("  hello\nxy\n");
    assert_eq!(mv(&r, (0, 5), Motion::FirstNonBlank), (0, 2));
    assert_eq!(mv(&r, (0, 5), Motion::LineStart), (0, 0));
    assert_eq!(mv(&r, (0, 0), Motion::LineEnd), (0, 6));
    let out = resolve(Motion::LineEnd, Some(2), Cursor::new(0, 0), &ctx(&r)).unwrap();
    assert_eq!((out.cursor.line, out.cursor.col), (1, 1));
}
