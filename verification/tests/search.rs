use unei::editing::rope::rope_from_str;
use unei::search::{compile, line_matches, Direction, Search};

fn searched(pattern: &str, text: &str) -> Search {
    let mut s = Search::default();
    assert!(s.set_pattern(pattern, Direction::Forward));
    s.ensure(&rope_from_str(text), 1, 1);
    s
}

#[test]
fn smartcase() {
    let s = searched("hello", "Hello hello HELLO\n");
    assert_eq!(s.count(), 3);
    let s = searched("Hello", "Hello hello HELLO\n");
    assert_eq!(s.count(), 1);
}

#[test]
fn navigation_wraps_both_ways() {
    let s = searched("x", "x.x\n.x.\n");
    assert_eq!(s.count(), 3);
    assert_eq!(s.next_after(0, 0), Some(((0, 2, 3), false)));
    assert_eq!(s.next_after(1, 1), Some(((0, 0, 1), true)));
    assert_eq!(s.prev_before(0, 0), Some(((1, 1, 2), true)));
    assert_eq!(s.prev_before(1, 1), Some(((0, 2, 3), false)));
}

#[test]
fn unicode_columns() {
    let s = searched("x", "日本x語x\n");
    assert_eq!(s.next_from(0, 0), Some(((0, 2, 3), false)));
    assert_eq!(s.next_after(0, 2), Some(((0, 4, 5), false)));
}

#[test]
fn invalid_pattern_is_inert() {
    let mut s = Search::default();
    assert!(!s.set_pattern("(unclosed", Direction::Forward));
    s.ensure(&rope_from_str("(unclosed\n"), 1, 1);
    assert_eq!(s.count(), 0);
}

#[test]
fn zero_width_matches_are_skipped() {
    let s = searched("a*", "bbb\n");
    assert_eq!(s.count(), 0);
}

#[test]
fn empty_pattern_does_not_compile() {
    assert!(compile("").is_none());
    assert!(compile("a(").is_none());
    assert!(compile("ab").is_some());
}

#[test]
fn matches_per_line_and_under_cursor() {
    let s = searched("ab", "ab ab\nxx\nab\n");
    assert_eq!(s.matches_on_line(0), vec![(0, 2), (3, 5)]);
    assert_eq!(s.matches_on_line(1), Vec::<(u32, u32)>::new());
    assert_eq!(s.match_at(0, 4), Some((3, 5)));
    assert_eq!(s.match_at(0, 2), None);
    assert_eq!(s.next_from(0, 3), Some(((0, 3, 5), false)));
    assert_eq!(s.next_from(2, 1), Some(((0, 0, 2), true)));
}

#[test]
fn same_version_keeps_matches() {
    let mut s = searched("a", "a\n");
    assert_eq!(s.count(), 1);
    s.ensure(&rope_from_str("aaa\n"), 1, 1);
    assert_eq!(s.count(), 1);
    s.ensure(&rope_from_str("aaa\n"), 1, 2);
    assert_eq!(s.count(), 3);
}

#[test]
fn byte_spans_become_char_columns() {
    // "é" is two bytes: bytes 2..3 are the char at column 1
    assert_eq!(line_matches(4, "éx", &[(2, 3)]), vec![(4, 1, 2)]);
    assert_eq!(line_matches(0, "abc", &[(1, 1), (1, 3)]), vec![(0, 1, 3)]);
}

#[test]
fn smartcase_counts() {
    let s = searched("hello", "Hello hello HELLO\n");
    assert_eq!(s.count(), 3);
    let s = searched("Hello", "Hello hello HELLO\n");
    assert_eq!(s.count(), 1);
    assert!(compile("(unclosed").is_none());
}

#[test]
fn next_match_is_the_nearest_after_the_cursor() {
    let mut s = Search::default();
    assert!(s.set_pattern("x", Direction::Forward));
    let rope = rope_from_str("x.x\n.x.\n");
    s.ensure(&rope, 1, 1);
    assert_eq!(s.next_after(0, 0), Some(((0, 2, 3), false)));
    assert_eq!(s.next_after(0, 2), Some(((1, 1, 2), false)));
    assert_eq!(s.next_after(1, 1), Some(((0, 0, 1), true)));
}
