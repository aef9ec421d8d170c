use unei::editing::buffer::{Buffer, Cursor};
use unei::editor::operator::EditState;
use unei::editor::Mode;
use unei::editor::jumps::{JumpList, Marks};

#[test]
fn ctrl_o_returns_to_the_jump_source_and_ctrl_i_comes_back() {
    let mut j = JumpList::new();
    let from = (1, Cursor::new(3, 4));
    let here = (1, Cursor::new(40, 0));
    j.record(from);
    assert_eq!(j.index, 1);
    assert_eq!(j.back(here), Some(from));
    assert_eq!(j.entries.len(), 2);
    assert_eq!(j.back(here), None);
    assert_eq!(j.forward(), Some(here));
    assert_eq!(j.forward(), None);
}

#[test]
fn recording_drops_the_walked_over_history_and_repeats() {
    let mut j = JumpList::new();
    for line in 0..3 {
        j.record((1, Cursor::new(line, 0)));
    }
    j.record((1, Cursor::new(2, 0)));
    assert_eq!(j.entries.len(), 3);
    assert_eq!(j.back((1, Cursor::new(9, 0))), Some((1, Cursor::new(2, 0))));
    assert_eq!(j.back((1, Cursor::new(2, 0))), Some((1, Cursor::new(1, 0))));
    j.record((2, Cursor::new(5, 5)));
    assert_eq!(j.entries, vec![(1, Cursor::new(0, 0)), (2, Cursor::new(5, 5))]);
    assert_eq!(j.index, 2);
}

#[test]
fn the_jumplist_keeps_the_newest_hundred() {
    let mut j = JumpList::new();
    for line in 0..150 {
        j.record((1, Cursor::new(line, 0)));
    }
    assert_eq!(j.entries.len(), 100);
    assert_eq!(j.entries[0], (1, Cursor::new(50, 0)));
    j.drop_entry(0);
    assert_eq!(j.entries.len(), 99);
    assert_eq!(j.index, 99);
}

#[test]
fn marks_read_back_per_buffer() {
    let mut m = Marks::new();
    m.set(1, 'a', Cursor::new(2, 3));
    m.set(2, 'a', Cursor::new(7, 0));
    m.set(1, '!', Cursor::new(9, 9));
    assert_eq!(m.get(1, 'a'), Some(Cursor::new(2, 3)));
    assert_eq!(m.get(2, 'a'), Some(Cursor::new(7, 0)));
    assert_eq!(m.get(1, '!'), None);
    m.set(1, 'a', Cursor::new(4, 4));
    assert_eq!(m.get(1, 'a'), Some(Cursor::new(4, 4)));
    assert_eq!(m.get(1, '`'), None);
    m.set_jump_source(1, Cursor::new(1, 1));
    assert_eq!(m.get(1, '`'), Some(Cursor::new(1, 1)));
    assert_eq!(m.get(1, '\''), Some(Cursor::new(1, 1)));
}

#[test]
fn a_mark_jump_lands_clamped_on_the_text() {
    let mut st = EditState {
        buffer: Buffer::from_text("a\n  bcd\n"),
        cursor: Cursor::new(0, 0),
        mode: Mode::Normal,
        goal: Some(4),
        last_find: None,
        yank_reg: None,
        cut_reg: None,
        change_started: false,
    };
    st.jump_to_mark(Cursor::new(1, 3), true);
    assert_eq!((st.cursor.line, st.cursor.col), (1, 3));
    assert!(st.goal.is_none());
    st.jump_to_mark(Cursor::new(1, 4), false);
    assert_eq!((st.cursor.line, st.cursor.col), (1, 2));
    st.jump_to_mark(Cursor::new(9, 40), true);
    assert_eq!((st.cursor.line, st.cursor.col), (1, 4));
}
