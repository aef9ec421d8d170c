use unei::lsp::InlayHint;
use unei::preview::rust::{annotate, wrap_words};

fn hint(line: usize, col: usize, label: &str) -> InlayHint {
    InlayHint {
        line,
        col,
        label: label.to_string(),
        kind: None,
    }
}

#[test]
fn annotate_splices_inline_and_folds_end_of_line_hints_into_a_comment() {
    let h1 = hint(0, 5, ": u32");
    let h2 = hint(0, 10, "n: ");
    let h3 = hint(0, 16, "Iter<Item>");
    let h4 = hint(0, 16, " fn total");
    let text = "let x = f(1) + y";
    assert_eq!(
        annotate(text, &[h3, h2, h1, h4]),
        "let x: u32 = f(n: 1) + y  // Iter<Item> · fn total",
        "sorted by column; trailing hints joined as one comment"
    );
}

#[test]
fn annotate_drops_a_hint_on_a_non_boundary_column_not_the_line() {
    let inside = hint(0, 1, ": X");
    let ok = hint(0, 2, ": Y");
    assert_eq!(annotate("é=1", &[inside, ok]), "é: Y=1");
}

#[test]
fn wrap_words_breaks_at_spaces_and_splits_long_words() {
    assert_eq!(
        wrap_words("the quick brown fox", 9),
        vec!["the quick", "brown fox"]
    );
    assert_eq!(wrap_words("abcdefghij k", 4), vec!["abcd", "efgh", "ij k"]);
    assert!(wrap_words("", 10).is_empty());
}

#[test]
fn annotate_keeps_equal_columns_in_hint_order_and_trims_comment_hints() {
    let a = hint(0, 1, "A");
    let b = hint(0, 1, "B");
    let c = hint(0, 3, "  // done  ");
    assert_eq!(annotate("xy  ", &[a, b, c]), "xABy  // done");
    assert_eq!(annotate("plain", &[]), "plain");
}

#[test]
fn wrap_words_collapses_runs_of_spaces() {
    assert_eq!(wrap_words("  a   b ", 10), vec!["a b"]);
}
