use unei::syntax::{fold_canvas, LineSpan, UNSTYLED};

#[test]
fn runs_merge_per_line() {
    let mut lines: Vec<Vec<LineSpan>> = vec![Vec::new(), Vec::new()];
    fold_canvas("ab\ncd", &[1, 1, UNSTYLED, 2, 3], &mut lines);
    assert_eq!(lines, vec![vec![(0, 2, 1)], vec![(0, 1, 2), (1, 2, 3)]]);
}

#[test]
fn columns_count_chars_not_bytes() {
    let mut lines: Vec<Vec<LineSpan>> = vec![Vec::new()];
    fold_canvas("é!", &[5, 5, 6], &mut lines);
    assert_eq!(lines, vec![vec![(0, 1, 5), (1, 2, 6)]]);
}

#[test]
fn unstyled_and_missing_lines_are_skipped() {
    let mut lines: Vec<Vec<LineSpan>> = vec![Vec::new()];
    fold_canvas("a\nb", &[UNSTYLED, UNSTYLED, 4], &mut lines);
    assert_eq!(lines, vec![Vec::<LineSpan>::new()]);
}
