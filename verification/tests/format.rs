use unei::format::{reread_outcome, stderr_tail, Outcome};
use unei::format::find_config;

#[test]
fn tail_is_the_last_line() {
    assert_eq!(stderr_tail("error: x\nfatal: y\n"), "fatal: y");
    assert_eq!(stderr_tail("one\ntwo"), "two");
    assert_eq!(stderr_tail("a\r\n"), "a");
    assert_eq!(stderr_tail("a\r"), "a\r");
    assert_eq!(stderr_tail("a\n\n"), "");
    assert_eq!(stderr_tail(""), "");
}

#[test]
fn tail_keeps_120_chars() {
    let long: String = "x".repeat(130);
    let tail = stderr_tail(&format!("first\n{long}\n"));
    assert_eq!(tail.chars().count(), 120);
}

#[test]
fn reread_reports_changes() {
    assert!(matches!(reread_outcome("a", "a"), Outcome::Unchanged));
    match reread_outcome("a", "b\n") {
        Outcome::Reformatted { text } => assert_eq!(text, "b\n"),
        _ => panic!("expected a reformat"),
    }
}

#[test]
fn nearest_config_governs() {
    assert_eq!(find_config(&[false, false, true], &[false, true, true]), Some((1, true)));
    assert_eq!(find_config(&[false, true], &[false, true]), Some((1, false)));
    assert_eq!(find_config(&[false], &[false]), None);
}
