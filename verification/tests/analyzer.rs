use unei::editor::analyzer::{
    byte_to_char_col, char_to_byte_col, identifier_at, is_plain_identifier, CompletionMenu,
};
use unei::lsp::CompletionItem;

#[test]
fn identifier_under_or_just_before_the_cursor() {
    let line = "let total_sum = foo(bar);";
    assert_eq!(identifier_at(line, 0), Some((0, 3)), "on `let`");
    assert_eq!(identifier_at(line, 6), Some((4, 13)), "inside total_sum");
    assert_eq!(
        identifier_at(line, 13),
        Some((4, 13)),
        "just past it (append)"
    );
    assert_eq!(identifier_at(line, 14), None, "on `=`… nothing before it");
    assert_eq!(identifier_at(line, 20), Some((20, 23)), "bar");
    assert_eq!(identifier_at(line, 24), None, "on `;` after `)`: nothing");
    assert_eq!(identifier_at("", 0), None);
    assert_eq!(identifier_at("   ", 1), None);
}

#[test]
fn plain_identifiers_only() {
    assert!(is_plain_identifier("foo_bar2"));
    assert!(is_plain_identifier("_x"));
    assert!(is_plain_identifier("größe"));
    assert!(!is_plain_identifier("2fast"));
    assert!(!is_plain_identifier("with space"));
    assert!(!is_plain_identifier("a-b"));
    assert!(!is_plain_identifier(""));
}

#[test]
fn columns_convert_between_chars_and_bytes() {
    assert_eq!(char_to_byte_col("aé b", 2), 3);
    assert_eq!(char_to_byte_col("aé b", 99), 5);
    assert_eq!(byte_to_char_col("aé b", 3), 2);
    assert_eq!(byte_to_char_col("aé b", 2), 4); // inside `é`
    assert_eq!(byte_to_char_col("aé b", 50), 4);
}

fn item(label: &str, detail: Option<&str>) -> CompletionItem {
    CompletionItem {
        label: label.to_string(),
        insert_text: label.to_string(),
        filter_text: label.to_string(),
        sort_text: label.to_string(),
        detail: detail.map(str::to_string),
        kind: None,
    }
}

#[test]
fn completion_menu_rows_and_selection() {
    let menu = CompletionMenu {
        all: vec![item("len", Some("usize")), item("push", None)],
        shown: vec![1, 7, 0],
        selected: 2,
        anchor_line: 0,
        anchor_col: 0,
    };
    assert_eq!(menu.len(), 3);
    assert!(!menu.is_empty());
    assert_eq!(menu.selected_item().map(|i| i.label.as_str()), Some("len"));
    assert_eq!(menu.rows(), vec![("push", None), ("len", Some("usize"))]);
}
