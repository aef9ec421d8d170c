use unei::editing::numedit::number_edit;

fn edit(line: &str, col: usize, delta: i64) -> Option<(usize, usize, String)> {
    number_edit(line, col, delta)
}

#[test]
fn decimal_increment_and_width() {
    assert_eq!(edit("42", 0, 1), Some((0, 2, "43".into())));
    assert_eq!(edit("007", 1, 1), Some((0, 3, "008".into()))); // keeps width
    assert_eq!(edit("9", 0, 1), Some((0, 1, "10".into()))); // grows
    assert_eq!(edit("x = 5", 0, 3), Some((4, 5, "8".into()))); // number after cursor
}

#[test]
fn decimal_signed() {
    assert_eq!(edit("-5", 0, 1), Some((0, 2, "-4".into())));
    assert_eq!(edit("-1", 0, 1), Some((0, 2, "0".into()))); // crosses zero
    assert_eq!(edit("0", 0, -1), Some((0, 1, "-1".into())));
}

#[test]
fn hex_forms_preserve_prefix_case_width() {
    assert_eq!(edit("0xff", 0, 1), Some((0, 4, "0x100".into())));
    assert_eq!(edit("0x0F", 0, 1), Some((0, 4, "0x10".into()))); // upper kept
    assert_eq!(edit("$FE", 0, 1), Some((0, 3, "$FF".into())));
    assert_eq!(edit("$00", 0, -1), Some((0, 3, "$00".into()))); // clamps at 0
}

#[test]
fn binary_forms() {
    assert_eq!(edit("0b0001", 0, 1), Some((0, 6, "0b0010".into())));
    assert_eq!(edit("%1010", 0, 1), Some((0, 5, "%1011".into())));
}

#[test]
fn count_delta_and_no_number() {
    assert_eq!(edit("val 10", 0, 5), Some((4, 6, "15".into())));
    assert_eq!(edit("no digits here", 0, 1), None);
    // cursor past the only number ⇒ nothing to the right
    assert_eq!(edit("7 x", 2, 1), None);
}

#[test]
fn cursor_inside_the_number_still_edits_it() {
    // col 2 is the middle of 1234 → still the target
    assert_eq!(edit("1234", 2, 1), Some((0, 4, "1235".into())));
}

#[test]
fn identifiers_are_not_numbers() {
    // the digits of `x1` sit inside a word: no token boundary
    assert_eq!(edit("x1 y", 0, 1), None);
    assert_eq!(edit("x1 7", 0, 1), Some((3, 4, "8".into())));
}

#[test]
fn magnitude_past_i128_is_left_alone() {
    let huge = "9".repeat(50);
    assert_eq!(edit(&huge, 0, 1), None);
}

#[test]
fn hex_lowercase_and_decrement_to_zero() {
    assert_eq!(edit("0xa", 0, -10), Some((0, 3, "0x0".into())));
    assert_eq!(edit("$1", 0, -5), Some((0, 2, "$0".into())));
}
