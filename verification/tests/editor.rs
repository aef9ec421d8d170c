use unei::editing::commands::{FindKind, Op};
use unei::editor::cmdline::parse_substitute;
use unei::editor::{Awaiting, Pending};

#[test]
fn counts_multiply_and_are_consumed() {
    let mut p = Pending {
        count1: Some(2),
        op: Some(Op::Delete),
        count2: Some(3),
        awaiting: Awaiting::Idle,
    };
    assert!(!p.is_idle());
    assert_eq!(p.take_count(), Some(6));
    assert_eq!(p.take_count(), None);
    p.op = None;
    assert!(p.is_idle());
    let mut q = Pending::default();
    q.count2 = Some(0);
    assert_eq!(q.take_count(), Some(1));
    q.count1 = Some(usize::MAX);
    q.count2 = Some(2);
    assert_eq!(q.take_count(), Some(usize::MAX));
}

#[test]
fn substitute_commands_parse() {
    assert_eq!(
        parse_substitute("s/foo/bar/g"),
        Some(("foo".to_string(), "bar".to_string(), true))
    );
    assert_eq!(
        parse_substitute("%s/a\\/b/c"),
        Some(("a/b".to_string(), "c".to_string(), false))
    );
    assert_eq!(
        parse_substitute("s/a\\db/x/"),
        Some(("a\\db".to_string(), "x".to_string(), false))
    );
    assert_eq!(parse_substitute("s//x/"), None);
    assert_eq!(parse_substitute("x/a/b"), None);
    assert_eq!(parse_substitute("s"), None);
    assert_eq!(
        parse_substitute("s/only"),
        Some(("only".to_string(), String::new(), false))
    );
}

#[test]
fn pending_hint_shows_counts_operator_and_awaited_key() {
    let p = Pending { count1: Some(2), op: Some(Op::Delete), count2: Some(3), awaiting: Awaiting::Find(FindKind::To) };
    assert_eq!(p.pending_display(), "2d3f");
    let p = Pending { count1: None, op: None, count2: None, awaiting: Awaiting::Window };
    assert_eq!(p.pending_display(), "^W");
    let p = Pending { count1: None, op: Some(Op::Yank), count2: None, awaiting: Awaiting::TextObject { around: true } };
    assert_eq!(p.pending_display(), "ya");
    let p = Pending { count1: None, op: None, count2: None, awaiting: Awaiting::LeaderC };
    assert_eq!(p.pending_display(), "\u{2423}c");
}
