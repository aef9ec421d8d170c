use unei::comment::is_commented;

#[test]
fn commented_lines_ignore_indentation() {
    assert!(is_commented("    // note", "//"));
    assert!(is_commented("#x", "#"));
    assert!(!is_commented("  x // note", "//"));
    assert!(!is_commented("", "#"));
    assert!(is_commented("   ", ""));
}
