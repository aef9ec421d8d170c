use unei::editing::buffer::{Buffer, Cursor, SaveRefusal};
use unei::editing::lines::{first_non_blank, line_content, line_indent, line_len, max_normal_col, text_lines};
use unei::editing::rope::{rope_from_str, rope_to_string};

fn text(b: &Buffer) -> String {
    rope_to_string(&b.rope)
}

#[test]
fn unchanged_transaction_leaves_no_undo_entry() {
    let mut b = Buffer::from_text("abc");
    b.begin_change(Cursor::new(0, 0));
    assert!(!b.end_change());
    assert!(b.undo(Cursor::default()).is_none());
}

#[test]
fn undo_redo_roundtrip() {
    let mut b = Buffer::from_text("abc");
    b.begin_change(Cursor::new(0, 0));
    b.insert(3, "def");
    assert!(b.end_change());
    assert!(b.is_modified());

    let cur = b.undo(Cursor::new(0, 5)).unwrap();
    assert_eq!(text(&b), "abc\n");
    assert_eq!(cur, Cursor::new(0, 0));
    assert!(!b.is_modified());

    let cur = b.redo(Cursor::new(0, 0)).unwrap();
    assert_eq!(text(&b), "abcdef\n");
    assert_eq!(cur, Cursor::new(0, 5));
}

#[test]
fn new_change_drops_redo() {
    let mut b = Buffer::from_text("");
    b.begin_change(Cursor::default());
    b.insert(0, "one");
    b.end_change();
    b.undo(Cursor::default());
    b.begin_change(Cursor::default());
    b.insert(0, "two");
    b.end_change();
    assert!(b.redo(Cursor::default()).is_none());
    assert_eq!(text(&b), "two\n");
}

#[test]
fn buffers_are_newline_terminated() {
    assert_eq!(text(&Buffer::from_text("")), "\n");
    assert_eq!(text(&Buffer::from_text("a")), "a\n");
    assert_eq!(text(&Buffer::from_text("a\n")), "a\n");
}

#[test]
fn nested_transactions_commit_as_one_undo_unit() {
    let mut b = Buffer::from_text("");
    b.begin_change(Cursor::default());
    b.begin_change(Cursor::default());
    b.insert(0, "vec");
    assert!(!b.end_change(), "inner end must not commit");
    b.insert(3, " ");
    b.begin_change(Cursor::default());
    b.insert(4, "vec");
    assert!(!b.end_change());
    assert!(b.end_change(), "outer end commits the whole session");
    assert_eq!(text(&b), "vec vec\n");
    b.undo(Cursor::default());
    assert_eq!(text(&b), "\n", "one undo restores the original");
    assert!(b.undo(Cursor::default()).is_none());
}

#[test]
fn saved_state_survives_undo_branching() {
    let mut b = Buffer::from_text("base");
    b.begin_change(Cursor::default());
    b.insert(4, "x");
    b.end_change();
    b.mark_saved(None);
    b.undo(Cursor::default());
    assert!(b.is_modified(), "\"base\" was never saved");
    b.begin_change(Cursor::default());
    b.insert(4, "y");
    b.end_change();
    assert!(b.is_modified(), "\"basey\" ≠ saved \"basex\"");
    b.undo(Cursor::default());
    b.redo(Cursor::default());
    assert_eq!(text(&b), "basey\n");
    assert!(b.is_modified());
}

#[test]
fn read_only_buffer_rejects_edits_and_save() {
    let mut b = Buffer::from_text("hello");
    b.read_only = true;
    b.begin_change(Cursor::default());
    b.insert(0, "X");
    b.remove(0, 1);
    assert_eq!(text(&b), "hello\n");
    assert!(!b.is_modified());
    b.path = Some("/nonexistent/does-not-matter".to_string());
    assert_eq!(b.prepare_save(false, None), Err(SaveRefusal::ReadOnly));
}

#[test]
fn save_preparation_rules() {
    let mut b = Buffer::from_text("x");
    assert_eq!(b.prepare_save(false, None), Err(SaveRefusal::NoFileName));
    b.rebind("f.txt".to_string());
    assert_eq!(b.prepare_save(false, Some((1, 2))), Ok("f.txt".to_string()));
    b.mark_saved(Some((1, 2)));
    assert!(!b.disk_changed(Some((1, 2))));
    assert!(b.disk_changed(Some((1, 3))));
    assert_eq!(
        b.prepare_save(false, Some((5, 2))),
        Err(SaveRefusal::ChangedOnDisk)
    );
    assert_eq!(b.prepare_save(true, Some((5, 2))), Ok("f.txt".to_string()));
    b.remove(1, 2);
    assert_eq!(text(&b), "x");
    assert_eq!(b.prepare_save(true, None), Ok("f.txt".to_string()));
    assert_eq!(text(&b), "x\n");
}

#[test]
fn text_lines_counts_like_vim() {
    assert_eq!(text_lines(&rope_from_str("")), 1);
    assert_eq!(text_lines(&rope_from_str("a")), 1);
    assert_eq!(text_lines(&rope_from_str("a\n")), 1);
    assert_eq!(text_lines(&rope_from_str("a\nb")), 2);
    assert_eq!(text_lines(&rope_from_str("a\nb\n")), 2);
    assert_eq!(text_lines(&rope_from_str("\n")), 1);
    assert_eq!(text_lines(&rope_from_str("\n\n")), 2);
}

#[test]
fn first_non_blank_variants() {
    let rope = rope_from_str("  abc\n    \n\n");
    assert_eq!(first_non_blank(&rope, 0), 2);
    assert_eq!(first_non_blank(&rope, 1), 3);
    assert_eq!(first_non_blank(&rope, 2), 0);
}

#[test]
fn line_accessors() {
    let rope = rope_from_str("\t x y\r\nab\u{2028}é\n");
    assert_eq!(line_content(&rope, 0), "\t x y\r");
    assert_eq!(line_len(&rope, 0), 6);
    assert_eq!(line_indent(&rope, 0), "\t ");
    assert_eq!(line_content(&rope, 1), "ab\u{2028}");
    assert_eq!(line_content(&rope, 2), "é");
    assert_eq!(max_normal_col(&rope, 2, 4), 0);
    assert_eq!(max_normal_col(&rope, 0, 4), 5);
}
