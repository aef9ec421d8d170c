use unei::editing::buffer::{Buffer, Cursor};
use unei::editing::rope::{rope_from_str, rope_to_string};
use unei::editor::text_edit::{lsp_pos_to_char, sort_bottom_up, TextEdit};

fn edit(sl: usize, sc: usize, el: usize, ec: usize, text: &str) -> TextEdit {
    TextEdit { range: Some((sl, sc, el, ec)), new_text: text.to_string() }
}

#[test]
fn edits_apply_bottom_up_in_one_change() {
    let mut b = Buffer::from_text("fn main() {}\nlet x = 1;\n");
    let edits = vec![edit(0, 3, 0, 7, "start"), edit(1, 4, 1, 5, "y")];
    assert!(b.apply_text_edits(&edits, Cursor::new(0, 0)));
    assert_eq!(rope_to_string(&b.rope), "fn start() {}\nlet y = 1;\n");
}

#[test]
fn a_whole_document_edit_keeps_the_final_newline() {
    let mut b = Buffer::from_text("a\nb\n");
    assert!(b.apply_text_edits(&vec![edit(0, 0, 2, 0, "abc")], Cursor::new(0, 0)));
    assert_eq!(rope_to_string(&b.rope), "abc\n");
}

#[test]
fn edits_at_one_place_keep_their_order_and_rangeless_ones_are_skipped() {
    let mut b = Buffer::from_text("x\n");
    let edits = vec![
        edit(0, 0, 0, 0, "A"),
        TextEdit { range: None, new_text: "ignored".to_string() },
        edit(0, 0, 0, 0, "B"),
    ];
    let sorted = sort_bottom_up(&edits);
    assert_eq!(sorted[0].new_text, "A");
    assert_eq!(sorted[1].new_text, "ignored");
    assert_eq!(sorted[2].new_text, "B");
    assert!(b.apply_text_edits(&edits, Cursor::new(0, 0)));
    assert_eq!(rope_to_string(&b.rope), "BAx\n");
    let mut b = Buffer::from_text("x\n");
    assert!(!b.apply_text_edits(&vec![edit(0, 0, 0, 0, "")], Cursor::new(0, 0)));
}

#[test]
fn positions_count_utf8_bytes_and_clamp() {
    let rope = rope_from_str("\u{e9}=1\nab\n");
    assert_eq!(lsp_pos_to_char(&rope, 0, 2), 1);
    assert_eq!(lsp_pos_to_char(&rope, 1, 1), 5);
    assert_eq!(lsp_pos_to_char(&rope, 1, 99), 6);
    assert_eq!(lsp_pos_to_char(&rope, 7, 0), 7);
}
