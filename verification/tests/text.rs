use unei::editing::text::{
    cell_at_col, char_class, col_at_cell, gr_index_at_col, line_graphemes, row_of_col,
    snap_to_grapheme, wrap_rows, CharClass, WrapRow,
};

fn wrapped(line: &str, width: usize) -> Vec<(usize, usize)> {
    wrap_rows(&line_graphemes(line, 4), width)
        .into_iter()
        .map(|r| (r.start_col, r.end_col))
        .collect()
}

fn row_texts(line: &str, width: usize) -> Vec<String> {
    wrapped(line, width)
        .into_iter()
        .map(|(s, e)| line.chars().skip(s).take(e - s).collect())
        .collect()
}

#[test]
fn wrap_breaks_after_whitespace_like_linebreak() {
    assert_eq!(
        row_texts("the quick brown fox", 10),
        ["the quick ", "brown fox"]
    );
    assert_eq!(row_texts("aaa bbb", 4), ["aaa ", "bbb"]);
}

#[test]
fn wrap_hard_breaks_a_word_longer_than_the_row() {
    assert_eq!(row_texts("abcdefghij", 4), ["abcd", "efgh", "ij"]);
    assert_eq!(row_texts("ab cdefghij", 4), ["ab ", "cdef", "ghij"]);
}

#[test]
fn wrap_edge_cases() {
    assert_eq!(wrapped("", 10), [(0, 0)]);
    assert_eq!(row_texts("exact", 5), ["exact"]);
    assert_eq!(row_texts("exact!", 5), ["exact", "!"]);
    assert_eq!(row_texts("\tab", 4), ["\t", "ab"]);
}

#[test]
fn row_of_col_maps_cursor_to_its_row() {
    let rows = wrap_rows(&line_graphemes("aaa bbb ccc", 4), 4);
    assert_eq!(rows.len(), 3);
    assert_eq!(row_of_col(&rows, 0), 0);
    assert_eq!(row_of_col(&rows, 3), 0);
    assert_eq!(row_of_col(&rows, 4), 1);
    assert_eq!(row_of_col(&rows, 10), 2);
    assert_eq!(row_of_col(&rows, 11), 2);
    assert_eq!(row_of_col(&wrap_rows(&[], 4), 0), 0);
}

#[test]
fn graphemes_handle_tabs_and_wide_chars() {
    let grs = line_graphemes("a\tb", 4);
    assert_eq!(grs[0].width, 1);
    assert_eq!(grs[1].width, 3);
    assert_eq!(grs[2].cell, 4);

    let grs = line_graphemes("日本", 4);
    assert_eq!(grs[0].width, 2);
    assert_eq!(grs[1].cell, 2);
}

#[test]
fn grapheme_clusters_are_units() {
    let grs = line_graphemes("e\u{301}x", 4);
    assert_eq!(grs.len(), 2);
    assert_eq!(grs[0].chars, 2);
    assert_eq!(snap_to_grapheme(&grs, 1), 0);
    assert_eq!(snap_to_grapheme(&grs, 2), 2);
}

#[test]
fn cell_and_col_conversions() {
    let grs = line_graphemes("a\t日x", 4);
    // a@0, tab@1..4, 日@4..6, x@6
    assert_eq!(cell_at_col(&grs, 2), 4);
    assert_eq!(cell_at_col(&grs, 4), 7); // past the end
    assert_eq!(col_at_cell(&grs, 5), 2);
    assert_eq!(col_at_cell(&grs, 100), 3); // clamped to the last grapheme
    assert_eq!(gr_index_at_col(&grs, 3), Some(3));
    assert_eq!(gr_index_at_col(&grs, 4), None);
    assert_eq!(col_at_cell(&[], 3), 0);
}

#[test]
fn rows_tile_the_line() {
    let line = "a somewhat long line of words that wraps several times";
    let rows = wrap_rows(&line_graphemes(line, 4), 7);
    assert_eq!(rows[0].start_col, 0);
    for w in rows.windows(2) {
        assert_eq!(w[0].end_col, w[1].start_col);
    }
    assert_eq!(rows.last().unwrap().end_col, line.chars().count());
    assert_eq!(
        wrap_rows(&[], 3),
        vec![WrapRow { start_cell: 0, end_cell: 0, start_col: 0, end_col: 0 }]
    );
}

#[test]
fn char_classes() {
    assert_eq!(char_class(' ', false), CharClass::Blank);
    assert_eq!(char_class('a', false), CharClass::Word);
    assert_eq!(char_class('_', false), CharClass::Word);
    assert_eq!(char_class('.', false), CharClass::Punct);
    assert_eq!(char_class('.', true), CharClass::Word);
    assert_eq!(char_class('日', false), CharClass::Script(3));
    assert_eq!(char_class('ひ', false), CharClass::Script(1));
}

#[test]
fn wrapped_rows_run_on_and_cover_the_line() {
    for (line, width) in [("alpha beta gamma delta", 7), ("日本語のテキスト", 5), ("a\tbc  de", 3), ("xyz", 1)] {
        let grs = line_graphemes(line, 4);
        let rows = wrap_rows(&grs, width);
        assert!(!rows.is_empty());
        assert_eq!((rows[0].start_col, rows[0].start_cell), (0, 0));
        for pair in rows.windows(2) {
            assert_eq!(pair[0].end_col, pair[1].start_col);
            assert_eq!(pair[0].end_cell, pair[1].start_cell);
        }
        let last = rows.last().unwrap();
        assert_eq!(last.end_col, line.chars().count());
        assert_eq!(last.end_cell, grs.last().map_or(0, |g| g.cell + g.width));
        for r in &rows {
            assert!(r.start_col < r.end_col);
            let single = grs.iter().any(|g| g.char_off == r.start_col && g.char_off + g.chars == r.end_col);
            let blank_end = grs.iter().any(|g| g.is_blank && g.char_off + g.chars == r.end_col);
            assert!(r.end_cell - r.start_cell <= width || single || blank_end);
        }
    }
}
