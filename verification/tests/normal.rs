use unei::config::keymap::Key;
use unei::editing::commands::{FindKind, InsertEntry, Op, ScrollCmd, SimpleCmd, VisualKind, WinCmd};
use unei::editing::motion::Motion;
use unei::editor::normal::{recenter_top, scroll_lines, Decision, NormalAction};
use unei::editor::{Awaiting, Mode, Pending};
use unei::config::keymap::{leader_token, normal_token, window_token};
use unei::editing::commands::{LeaderCmd, SplitDir, Token};

fn feed(p: &mut Pending, mode: Mode, keys: &str) -> Vec<Decision> {
    keys.chars().map(|c| p.normal_key(mode, Key::Char(c))).collect()
}

fn last_action(p: &mut Pending, mode: Mode, keys: &str) -> NormalAction {
    feed(p, mode, keys).last().unwrap().action
}

#[test]
fn counts_multiply_across_a_doubled_operator() {
    let mut p = Pending::default();
    assert_eq!(
        last_action(&mut p, Mode::Normal, "2d3d"),
        NormalAction::LinewiseOp { op: Op::Delete, count: 6 }
    );
    assert!(p.is_idle());
    let mut p = Pending::default();
    assert_eq!(
        last_action(&mut p, Mode::Normal, "yy"),
        NormalAction::LinewiseOp { op: Op::Yank, count: 1 }
    );
}

#[test]
fn operator_then_motion_carries_both() {
    let mut p = Pending::default();
    assert_eq!(
        last_action(&mut p, Mode::Normal, "d2w"),
        NormalAction::Motion {
            motion: Motion::WordForward { big: false },
            op: Some(Op::Delete),
            count: Some(2),
            jump: false
        }
    );
    assert!(p.is_idle());
}

#[test]
fn zero_is_a_motion_unless_a_count_is_typed() {
    let mut p = Pending::default();
    let a = p.normal_key(Mode::Normal, Key::Char('0'));
    assert_eq!(
        a.action,
        NormalAction::Motion { motion: Motion::LineStart, op: None, count: None, jump: false }
    );
    let mut p = Pending::default();
    feed(&mut p, Mode::Normal, "10");
    assert_eq!(p.count1, Some(10));
    assert_eq!(p.awaiting, Awaiting::Idle);
}

#[test]
fn jumps_are_marked_only_without_an_operator() {
    let mut p = Pending::default();
    assert_eq!(
        last_action(&mut p, Mode::Normal, "gg"),
        NormalAction::Motion { motion: Motion::GotoFirst, op: None, count: None, jump: true }
    );
    let mut p = Pending::default();
    assert_eq!(
        last_action(&mut p, Mode::Normal, "dG"),
        NormalAction::Motion { motion: Motion::GotoLast, op: Some(Op::Delete), count: None, jump: false }
    );
}

#[test]
fn find_and_replace_chords_take_the_next_char() {
    let mut p = Pending::default();
    assert_eq!(
        last_action(&mut p, Mode::Normal, "3fx"),
        NormalAction::Motion {
            motion: Motion::Find { kind: FindKind::To, ch: 'x' },
            op: None,
            count: Some(3),
            jump: false
        }
    );
    let mut p = Pending::default();
    assert_eq!(last_action(&mut p, Mode::Normal, "4rz"), NormalAction::ReplaceChars { ch: 'z', count: 4 });
    let mut p = Pending::default();
    feed(&mut p, Mode::Normal, "r");
    assert_eq!(p.awaiting, Awaiting::Replace);
    let d = p.normal_key(Mode::Normal, Key::Esc);
    assert_eq!(d.action, NormalAction::Nothing);
    assert!(p.is_idle());
}

#[test]
fn escape_and_ctrl_c() {
    let mut p = Pending::default();
    feed(&mut p, Mode::Normal, "3d");
    let d = p.normal_key(Mode::Normal, Key::Esc);
    assert_eq!(d, Decision { action: NormalAction::Escape, drop_recording: true });
    assert!(p.is_idle());
    let d = p.normal_key(Mode::Normal, Key::Ctrl('c'));
    assert_eq!(d.action, NormalAction::QuitHint);
    let d = p.normal_key(Mode::Visual(VisualKind::Char), Key::Ctrl('c'));
    assert_eq!(d.action, NormalAction::LeaveVisual);
}

#[test]
fn an_operator_refuses_inserts_and_simple_commands() {
    let mut p = Pending::default();
    assert_eq!(last_action(&mut p, Mode::Normal, "dx"), NormalAction::Nothing);
    assert!(p.is_idle());
    let mut p = Pending::default();
    assert_eq!(last_action(&mut p, Mode::Normal, "2h"), NormalAction::EnterInsert(InsertEntry::Before));
    assert!(p.is_idle());
    let mut p = Pending::default();
    assert_eq!(
        last_action(&mut p, Mode::Normal, "3x"),
        NormalAction::Simple { cmd: SimpleCmd::DeleteRight, count: Some(3) }
    );
    // operator-pending `h` is the left motion again
    let mut p = Pending::default();
    assert_eq!(
        last_action(&mut p, Mode::Normal, "dh"),
        NormalAction::Motion { motion: Motion::Left, op: Some(Op::Delete), count: None, jump: false }
    );
}

#[test]
fn leader_window_and_z_chords() {
    let mut p = Pending::default();
    let d = feed(&mut p, Mode::Normal, " b");
    assert_eq!(d[1], Decision { action: NormalAction::BufferList, drop_recording: true });
    let mut p = Pending::default();
    feed(&mut p, Mode::Normal, " w");
    assert_eq!(p.awaiting, Awaiting::Window);
    let mut p = Pending::default();
    assert_eq!(last_action(&mut p, Mode::Normal, "zz"), NormalAction::Scroll(ScrollCmd::CenterCursor));
    let mut p = Pending::default();
    assert_eq!(last_action(&mut p, Mode::Normal, "ZZ"), NormalAction::SaveAndQuit);
    let mut p = Pending::default();
    feed(&mut p, Mode::Normal, "gc");
    assert_eq!(p.awaiting, Awaiting::GComment);
    assert_eq!(last_action(&mut p, Mode::Normal, "c"), NormalAction::CommentLines(1));
    let mut p = Pending::default();
    let d = p.normal_key(Mode::Normal, Key::Ctrl('w'));
    assert_eq!(d.action, NormalAction::Nothing);
    assert_eq!(p.awaiting, Awaiting::Window);
    let d = p.normal_key(Mode::Normal, Key::Char('v'));
    assert_eq!(d, Decision { action: NormalAction::Window(WinCmd::SplitV), drop_recording: true });
    assert!(p.is_idle());
}

#[test]
fn visual_mode_overrides() {
    let vis = Mode::Visual(VisualKind::Char);
    let mut p = Pending::default();
    assert_eq!(last_action(&mut p, vis, "d"), NormalAction::VisualOperate(Op::Delete));
    let mut p = Pending::default();
    assert_eq!(last_action(&mut p, vis, "x"), NormalAction::VisualOperate(Op::Delete));
    let mut p = Pending::default();
    assert_eq!(last_action(&mut p, vis, "o"), NormalAction::SwapEnds);
    let mut p = Pending::default();
    assert_eq!(last_action(&mut p, Mode::Visual(VisualKind::Block), "O"), NormalAction::SwapCorners);
    let mut p = Pending::default();
    assert_eq!(
        last_action(&mut p, vis, "h"),
        NormalAction::Motion { motion: Motion::Left, op: None, count: None, jump: false }
    );
    let mut p = Pending::default();
    assert_eq!(last_action(&mut p, vis, "gc"), NormalAction::CommentSelection);
    let mut p = Pending::default();
    assert_eq!(last_action(&mut p, vis, "u"), NormalAction::Nothing);
}

#[test]
fn scroll_and_recenter_arithmetic() {
    assert_eq!(scroll_lines(ScrollCmd::HalfDown, 20), Some(10));
    assert_eq!(scroll_lines(ScrollCmd::HalfUp, 1), Some(1));
    assert_eq!(scroll_lines(ScrollCmd::PageDown, 20), Some(18));
    assert_eq!(scroll_lines(ScrollCmd::PageUp, 2), Some(1));
    assert_eq!(scroll_lines(ScrollCmd::CenterCursor, 20), None);
    assert_eq!(recenter_top(ScrollCmd::CenterCursor, 30, 20, 7), 20);
    assert_eq!(recenter_top(ScrollCmd::CenterCursor, 3, 20, 7), 0);
    assert_eq!(recenter_top(ScrollCmd::CursorTop, 30, 20, 7), 30);
    assert_eq!(recenter_top(ScrollCmd::CursorBottom, 30, 20, 7), 11);
    assert_eq!(recenter_top(ScrollCmd::HalfDown, 30, 20, 7), 7);
}

#[test]
fn documented_keys_have_tokens() {
    assert_eq!(normal_token(Key::Char('m')), Some(Token::SetMark));
    assert_eq!(normal_token(Key::Char('`')), Some(Token::JumpMark { exact: true }));
    assert_eq!(normal_token(Key::Char('\'')), Some(Token::JumpMark { exact: false }));
    assert_eq!(normal_token(Key::Char('R')), Some(Token::ReplaceMode));
    assert_eq!(normal_token(Key::Ctrl('a')), Some(Token::Simple(SimpleCmd::Increment)));
    assert_eq!(normal_token(Key::Ctrl('x')), Some(Token::Simple(SimpleCmd::Decrement)));
    assert_eq!(normal_token(Key::Char('>')), Some(Token::Op(Op::Indent)));
    assert_eq!(leader_token(Key::Char('s')), Some(LeaderCmd::Symbols));
    assert_eq!(leader_token(Key::Char('g')), Some(LeaderCmd::Grep));
    assert_eq!(window_token(Key::Char('V')), Some(WinCmd::SplitStay(SplitDir::Vertical)));
    assert_eq!(window_token(Key::Alt('v')), Some(WinCmd::SplitPreview(SplitDir::Vertical)));
    // the chords reach the decisions
    let mut p = Pending::default();
    assert_eq!(last_action(&mut p, Mode::Normal, "ma"), NormalAction::SetMark('a'));
    let mut p = Pending::default();
    assert_eq!(last_action(&mut p, Mode::Normal, "'a"), NormalAction::JumpMark { ch: 'a', exact: false });
    let mut p = Pending::default();
    assert_eq!(last_action(&mut p, Mode::Normal, " g"), NormalAction::Grep);
}

#[test]
fn a_count_that_would_overflow_is_refused() {
    let mut p = Pending::default();
    p.count1 = Some(usize::MAX / 10);
    assert!(p.key_fits(Key::Char('5')));
    p.count1 = Some(usize::MAX);
    assert!(p.key_fits(Key::Char('0')));
    assert!(!p.key_fits(Key::Char('1')));
    assert!(p.key_fits(Key::Char('x')));
}
