use unei::editing::buffer::Cursor;
use unei::editing::rope::rope_from_str;
use unei::editing::textobject::{parse, resolve, ObjKind, Range};

fn obj(text: &str, line: usize, col: usize, kind: ObjKind, around: bool, count: usize) -> Option<Range> {
    let r = rope_from_str(text);
    resolve(&r, Cursor::new(line, col), kind, around, count)
}

fn rg(start: usize, end: usize, linewise: bool) -> Option<Range> {
    Some(Range { start, end, linewise })
}

#[test]
fn parse_maps_keys_to_objects() {
    assert_eq!(parse('w'), Some(ObjKind::Word { big: false }));
    assert_eq!(parse('W'), Some(ObjKind::Word { big: true }));
    assert_eq!(parse('p'), Some(ObjKind::Paragraph));
    assert_eq!(parse('b'), Some(ObjKind::Pair('(', ')')));
    assert_eq!(parse('}'), Some(ObjKind::Pair('{', '}')));
    assert_eq!(parse('>'), Some(ObjKind::Pair('<', '>')));
    assert_eq!(parse('`'), Some(ObjKind::Quote('`')));
    assert_eq!(parse('x'), None);
}

#[test]
fn inner_and_around_word() {
    let w = ObjKind::Word { big: false };
    assert_eq!(obj("foo bar baz\n", 0, 5, w, false, 1), rg(4, 7, false));
    assert_eq!(obj("foo bar baz\n", 0, 5, w, true, 1), rg(4, 8, false));
    // no trailing blank: the leading one is taken
    assert_eq!(obj("foo bar baz\n", 0, 9, w, true, 1), rg(7, 11, false));
}

#[test]
fn word_count_spans_runs_and_zero_counts_as_one() {
    let w = ObjKind::Word { big: false };
    assert_eq!(obj("foo bar baz\n", 0, 0, w, false, 2), rg(0, 4, false));
    assert_eq!(obj("foo bar baz\n", 0, 0, w, false, 0), rg(0, 3, false));
    assert_eq!(obj("foo.bar x\n", 0, 0, ObjKind::Word { big: true }, false, 1), rg(0, 7, false));
}

#[test]
fn word_on_empty_line_is_none() {
    assert_eq!(obj("a\n\nb\n", 1, 0, ObjKind::Word { big: false }, false, 1), None);
}

#[test]
fn bracket_pairs_nest() {
    let p = ObjKind::Pair('(', ')');
    assert_eq!(obj("f(a, (b)) x\n", 0, 2, p, false, 1), rg(2, 8, false));
    assert_eq!(obj("f(a, (b)) x\n", 0, 2, p, true, 1), rg(1, 9, false));
    assert_eq!(obj("f(a, (b)) x\n", 0, 6, p, false, 1), rg(6, 7, false));
    // on the closing bracket itself
    assert_eq!(obj("f(a, (b)) x\n", 0, 8, p, false, 1), rg(2, 8, false));
    assert_eq!(obj("abc\n", 0, 1, p, false, 1), None);
}

#[test]
fn quotes_pair_left_to_right() {
    let q = ObjKind::Quote('"');
    let s = "say \"hi\" and \"yo\"\n";
    assert_eq!(obj(s, 0, 0, q, false, 1), rg(5, 7, false));
    assert_eq!(obj(s, 0, 0, q, true, 1), rg(4, 9, false));
    assert_eq!(obj(s, 0, 10, q, false, 1), rg(14, 16, false));
    assert_eq!(obj(s, 0, 10, q, true, 1), rg(12, 17, false));
    assert_eq!(obj("only \" one\n", 0, 0, q, false, 1), None);
}

#[test]
fn paragraphs_are_linewise() {
    let p = ObjKind::Paragraph;
    assert_eq!(obj("a\nb\n\nc\n", 0, 0, p, false, 1), rg(0, 4, true));
    assert_eq!(obj("a\nb\n\nc\n", 0, 0, p, true, 1), rg(0, 5, true));
    assert_eq!(obj("a\nb\n\nc\n", 3, 0, p, true, 1), rg(4, 7, true));
}
