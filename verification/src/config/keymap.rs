//! Key → command tables. This *is* the keymap configuration: edit and rebuild.
//!
//! IJKL navigation (i=up, k=down, j=left, l=right) applies in normal and
//! operator-pending contexts; `h`/`H` enter insert mode in normal mode only —
//! so `dh` still deletes left.

use vstd::prelude::*;

use crate::editing::commands::{
    FindKind, InsertEntry, LeaderCmd, ListCmd, Op, PickerCmd, ScrollCmd, SimpleCmd, SplitDir,
    Token, VisualKind, WinCmd, WinDir,
};
use crate::editing::motion::Motion;

verus! {

#[derive(Debug, Clone, Copy, PartialEq, Eq, Structural)]
pub enum Key {
    Char(char),
    Ctrl(char),
    Alt(char),
    CtrlEnter,
    Esc,
    Enter,
    Backspace,
    Tab,
    Delete,
    Up,
    Down,
    Left,
    Right,
    Home,
    End,
    PageUp,
    PageDown,
}

/// The leader key (space).
pub open spec fn leader() -> Key {
    Key::Char(' ')
}

/// The table of [`normal_token`].
pub open spec fn spec_normal_token(key: Key) -> Option<Token> {
    match key {
        Key::Char('i') => Some(Token::Motion(Motion::Up)),
        Key::Char('k') => Some(Token::Motion(Motion::Down)),
        Key::Char('j') => Some(Token::Motion(Motion::Left)),
        Key::Char('l') => Some(Token::Motion(Motion::Right)),
        Key::Char('h') => Some(Token::Insert(InsertEntry::Before)),
        Key::Char('H') => Some(Token::Insert(InsertEntry::FirstNonBlank)),
        Key::Char('a') => Some(Token::Insert(InsertEntry::After)),
        Key::Char('A') => Some(Token::Insert(InsertEntry::LineEnd)),
        Key::Char('o') => Some(Token::Insert(InsertEntry::OpenBelow)),
        Key::Char('O') => Some(Token::Insert(InsertEntry::OpenAbove)),
        Key::Char('0') | Key::Home => Some(Token::Motion(Motion::LineStart)),
        Key::Char('^') => Some(Token::Motion(Motion::FirstNonBlank)),
        Key::Char('$') | Key::End => Some(Token::Motion(Motion::LineEnd)),
        Key::Char('w') => Some(Token::Motion(Motion::WordForward { big: false })),
        Key::Char('W') => Some(Token::Motion(Motion::WordForward { big: true })),
        Key::Char('b') => Some(Token::Motion(Motion::WordBack { big: false })),
        Key::Char('B') => Some(Token::Motion(Motion::WordBack { big: true })),
        Key::Char('e') => Some(Token::Motion(Motion::WordEnd { big: false })),
        Key::Char('E') => Some(Token::Motion(Motion::WordEnd { big: true })),
        Key::Char('G') => Some(Token::Motion(Motion::GotoLast)),
        Key::Char('{') => Some(Token::Motion(Motion::ParaBack)),
        Key::Char('}') => Some(Token::Motion(Motion::ParaForward)),
        Key::Char('f') => Some(Token::FindStart(FindKind::To)),
        Key::Char('F') => Some(Token::FindStart(FindKind::ToBack)),
        Key::Char('t') => Some(Token::FindStart(FindKind::Till)),
        Key::Char('T') => Some(Token::FindStart(FindKind::TillBack)),
        Key::Char(';') => Some(Token::Motion(Motion::RepeatFind)),
        Key::Char(',') => Some(Token::Motion(Motion::RepeatFindRev)),
        Key::Up => Some(Token::Motion(Motion::Up)),
        Key::Down => Some(Token::Motion(Motion::Down)),
        Key::Left => Some(Token::Motion(Motion::Left)),
        Key::Right => Some(Token::Motion(Motion::Right)),
        Key::Char('v') => Some(Token::Visual(VisualKind::Char)),
        Key::Char('V') => Some(Token::Visual(VisualKind::Line)),
        Key::Ctrl('v') => Some(Token::Visual(VisualKind::Block)),
        Key::Char('d') => Some(Token::Op(Op::Delete)),
        Key::Char('c') => Some(Token::Op(Op::Change)),
        Key::Char('y') => Some(Token::Op(Op::Yank)),
        Key::Char('x') => Some(Token::Simple(SimpleCmd::DeleteRight)),
        Key::Char('X') => Some(Token::Simple(SimpleCmd::DeleteLeft)),
        Key::Char('r') => Some(Token::ReplaceStart),
        Key::Char('~') => Some(Token::Simple(SimpleCmd::ToggleCase)),
        Key::Char('J') => Some(Token::Simple(SimpleCmd::Join)),
        Key::Char('p') => Some(Token::Simple(SimpleCmd::PasteAfter)),
        Key::Char('P') => Some(Token::Simple(SimpleCmd::PasteBefore)),
        Key::Char('u') => Some(Token::Simple(SimpleCmd::Undo)),
        Key::Ctrl('r') => Some(Token::Simple(SimpleCmd::Redo)),
        Key::Char('.') => Some(Token::Simple(SimpleCmd::Repeat)),
        Key::Char('D') => Some(Token::Simple(SimpleCmd::DeleteToEol)),
        Key::Char('C') => Some(Token::Simple(SimpleCmd::ChangeToEol)),
        Key::Char('Y') => Some(Token::Simple(SimpleCmd::YankToEol)),
        Key::Char('s') => Some(Token::Simple(SimpleCmd::SubstChar)),
        Key::Char('S') => Some(Token::Simple(SimpleCmd::SubstLine)),
        Key::Ctrl('d') => Some(Token::Scroll(ScrollCmd::HalfDown)),
        Key::Ctrl('u') => Some(Token::Scroll(ScrollCmd::HalfUp)),
        Key::Ctrl('f') | Key::PageDown => Some(Token::Scroll(ScrollCmd::PageDown)),
        Key::Ctrl('b') | Key::PageUp => Some(Token::Scroll(ScrollCmd::PageUp)),
        Key::Ctrl('^') | Key::Ctrl('6') => Some(Token::AlternateBuffer),
        Key::Char('K') => Some(Token::Hover),
        Key::Ctrl('o') => Some(Token::Simple(SimpleCmd::JumpBack)),
        Key::Ctrl('i') | Key::Tab => Some(Token::Simple(SimpleCmd::JumpForward)),
        Key::Char('/') => Some(Token::SearchPrompt(true)),
        Key::Char('?') => Some(Token::SearchPrompt(false)),
        Key::Char('n') => Some(Token::Simple(SimpleCmd::NextMatch)),
        Key::Char('N') => Some(Token::Simple(SimpleCmd::PrevMatch)),
        Key::Char('*') => Some(Token::Simple(SimpleCmd::SearchWord)),
        Key::Ctrl('p') => Some(Token::FilePicker),
        Key::Ctrl('w') => Some(Token::PrefixWindow),
        Key::Char(' ') => Some(Token::Leader),
        Key::Char('g') => Some(Token::PrefixG),
        Key::Char('z') => Some(Token::PrefixZ),
        Key::Char('Z') => Some(Token::PrefixZUpper),
        Key::Char(':') => Some(Token::CmdLine),
        Key::Char('m') => Some(Token::SetMark),
        Key::Char('`') => Some(Token::JumpMark { exact: true }),
        Key::Char('\'') => Some(Token::JumpMark { exact: false }),
        Key::Char('R') => Some(Token::ReplaceMode),
        Key::Ctrl('a') => Some(Token::Simple(SimpleCmd::Increment)),
        Key::Ctrl('x') => Some(Token::Simple(SimpleCmd::Decrement)),
        Key::Char('>') => Some(Token::Op(Op::Indent)),
        Key::Char('<') => Some(Token::Op(Op::Dedent)),
        _ => None,
    }
}

/// Meaning of a key in normal mode (digits are handled by the pending-state
/// machine before this table is consulted).
pub fn normal_token(key: Key) -> (r: Option<Token>)
    ensures
        r == spec_normal_token(key),
{
    match key {
        Key::Char('i') => Some(Token::Motion(Motion::Up)),
        Key::Char('k') => Some(Token::Motion(Motion::Down)),
        Key::Char('j') => Some(Token::Motion(Motion::Left)),
        Key::Char('l') => Some(Token::Motion(Motion::Right)),
        Key::Char('h') => Some(Token::Insert(InsertEntry::Before)),
        Key::Char('H') => Some(Token::Insert(InsertEntry::FirstNonBlank)),
        Key::Char('a') => Some(Token::Insert(InsertEntry::After)),
        Key::Char('A') => Some(Token::Insert(InsertEntry::LineEnd)),
        Key::Char('o') => Some(Token::Insert(InsertEntry::OpenBelow)),
        Key::Char('O') => Some(Token::Insert(InsertEntry::OpenAbove)),
        Key::Char('0') | Key::Home => Some(Token::Motion(Motion::LineStart)),
        Key::Char('^') => Some(Token::Motion(Motion::FirstNonBlank)),
        Key::Char('$') | Key::End => Some(Token::Motion(Motion::LineEnd)),
        Key::Char('w') => Some(Token::Motion(Motion::WordForward { big: false })),
        Key::Char('W') => Some(Token::Motion(Motion::WordForward { big: true })),
        Key::Char('b') => Some(Token::Motion(Motion::WordBack { big: false })),
        Key::Char('B') => Some(Token::Motion(Motion::WordBack { big: true })),
        Key::Char('e') => Some(Token::Motion(Motion::WordEnd { big: false })),
        Key::Char('E') => Some(Token::Motion(Motion::WordEnd { big: true })),
        Key::Char('G') => Some(Token::Motion(Motion::GotoLast)),
        Key::Char('{') => Some(Token::Motion(Motion::ParaBack)),
        Key::Char('}') => Some(Token::Motion(Motion::ParaForward)),
        Key::Char('f') => Some(Token::FindStart(FindKind::To)),
        Key::Char('F') => Some(Token::FindStart(FindKind::ToBack)),
        Key::Char('t') => Some(Token::FindStart(FindKind::Till)),
        Key::Char('T') => Some(Token::FindStart(FindKind::TillBack)),
        Key::Char(';') => Some(Token::Motion(Motion::RepeatFind)),
        Key::Char(',') => Some(Token::Motion(Motion::RepeatFindRev)),
        Key::Up => Some(Token::Motion(Motion::Up)),
        Key::Down => Some(Token::Motion(Motion::Down)),
        Key::Left => Some(Token::Motion(Motion::Left)),
        Key::Right => Some(Token::Motion(Motion::Right)),
        Key::Char('v') => Some(Token::Visual(VisualKind::Char)),
        Key::Char('V') => Some(Token::Visual(VisualKind::Line)),
        Key::Ctrl('v') => Some(Token::Visual(VisualKind::Block)),
        Key::Char('d') => Some(Token::Op(Op::Delete)),
        Key::Char('c') => Some(Token::Op(Op::Change)),
        Key::Char('y') => Some(Token::Op(Op::Yank)),
        Key::Char('x') => Some(Token::Simple(SimpleCmd::DeleteRight)),
        Key::Char('X') => Some(Token::Simple(SimpleCmd::DeleteLeft)),
        Key::Char('r') => Some(Token::ReplaceStart),
        Key::Char('~') => Some(Token::Simple(SimpleCmd::ToggleCase)),
        Key::Char('J') => Some(Token::Simple(SimpleCmd::Join)),
        Key::Char('p') => Some(Token::Simple(SimpleCmd::PasteAfter)),
        Key::Char('P') => Some(Token::Simple(SimpleCmd::PasteBefore)),
        Key::Char('u') => Some(Token::Simple(SimpleCmd::Undo)),
        Key::Ctrl('r') => Some(Token::Simple(SimpleCmd::Redo)),
        Key::Char('.') => Some(Token::Simple(SimpleCmd::Repeat)),
        Key::Char('D') => Some(Token::Simple(SimpleCmd::DeleteToEol)),
        Key::Char('C') => Some(Token::Simple(SimpleCmd::ChangeToEol)),
        Key::Char('Y') => Some(Token::Simple(SimpleCmd::YankToEol)),
        Key::Char('s') => Some(Token::Simple(SimpleCmd::SubstChar)),
        Key::Char('S') => Some(Token::Simple(SimpleCmd::SubstLine)),
        Key::Ctrl('d') => Some(Token::Scroll(ScrollCmd::HalfDown)),
        Key::Ctrl('u') => Some(Token::Scroll(ScrollCmd::HalfUp)),
        Key::Ctrl('f') | Key::PageDown => Some(Token::Scroll(ScrollCmd::PageDown)),
        Key::Ctrl('b') | Key::PageUp => Some(Token::Scroll(ScrollCmd::PageUp)),
        Key::Ctrl('^') | Key::Ctrl('6') => Some(Token::AlternateBuffer),
        Key::Char('K') => Some(Token::Hover),
        Key::Ctrl('o') => Some(Token::Simple(SimpleCmd::JumpBack)),
        Key::Ctrl('i') | Key::Tab => Some(Token::Simple(SimpleCmd::JumpForward)),
        Key::Char('/') => Some(Token::SearchPrompt(true)),
        Key::Char('?') => Some(Token::SearchPrompt(false)),
        Key::Char('n') => Some(Token::Simple(SimpleCmd::NextMatch)),
        Key::Char('N') => Some(Token::Simple(SimpleCmd::PrevMatch)),
        Key::Char('*') => Some(Token::Simple(SimpleCmd::SearchWord)),
        Key::Ctrl('p') => Some(Token::FilePicker),
        Key::Ctrl('w') => Some(Token::PrefixWindow),
        Key::Char(' ') => Some(Token::Leader),
        Key::Char('g') => Some(Token::PrefixG),
        Key::Char('z') => Some(Token::PrefixZ),
        Key::Char('Z') => Some(Token::PrefixZUpper),
        Key::Char(':') => Some(Token::CmdLine),
        Key::Char('m') => Some(Token::SetMark),
        Key::Char('`') => Some(Token::JumpMark { exact: true }),
        Key::Char('\'') => Some(Token::JumpMark { exact: false }),
        Key::Char('R') => Some(Token::ReplaceMode),
        Key::Ctrl('a') => Some(Token::Simple(SimpleCmd::Increment)),
        Key::Ctrl('x') => Some(Token::Simple(SimpleCmd::Decrement)),
        Key::Char('>') => Some(Token::Op(Op::Indent)),
        Key::Char('<') => Some(Token::Op(Op::Dedent)),
        _ => None,
    }
}

/// The table of [`leader_token`].
pub open spec fn spec_leader_token(key: Key) -> Option<LeaderCmd> {
    match key {
        Key::Char('b') => Some(LeaderCmd::BufferList),
        Key::Char('p') => Some(LeaderCmd::PasteCutAfter),
        Key::Char('P') => Some(LeaderCmd::PasteCutBefore),
        Key::Char('w') => Some(LeaderCmd::WindowPrefix),
        Key::Char('c') => Some(LeaderCmd::CodePrefix),
        Key::Char('r') => Some(LeaderCmd::RustPrefix),
        Key::Char('d') => Some(LeaderCmd::DiagPrefix),
        Key::Char('s') => Some(LeaderCmd::Symbols),
        Key::Char('g') => Some(LeaderCmd::Grep),
        _ => None,
    }
}

/// Second key of a `<leader>…` chord.
pub fn leader_token(key: Key) -> (r: Option<LeaderCmd>)
    ensures
        r == spec_leader_token(key),
{
    match key {
        Key::Char('b') => Some(LeaderCmd::BufferList),
        Key::Char('p') => Some(LeaderCmd::PasteCutAfter),
        Key::Char('P') => Some(LeaderCmd::PasteCutBefore),
        Key::Char('w') => Some(LeaderCmd::WindowPrefix),
        Key::Char('c') => Some(LeaderCmd::CodePrefix),
        Key::Char('r') => Some(LeaderCmd::RustPrefix),
        Key::Char('d') => Some(LeaderCmd::DiagPrefix),
        Key::Char('s') => Some(LeaderCmd::Symbols),
        Key::Char('g') => Some(LeaderCmd::Grep),
        _ => None,
    }
}

/// The table of [`window_token`].
pub open spec fn spec_window_token(key: Key) -> Option<WinCmd> {
    match key {
        Key::Ctrl('w') => Some(WinCmd::FocusNext),
        Key::Char('i') | Key::Up => Some(WinCmd::Focus(WinDir::Up)),
        Key::Char('k') | Key::Down => Some(WinCmd::Focus(WinDir::Down)),
        Key::Char('j') | Key::Left => Some(WinCmd::Focus(WinDir::Left)),
        Key::Char('l') | Key::Right => Some(WinCmd::Focus(WinDir::Right)),
        Key::Alt('i') => Some(WinCmd::Resize(WinDir::Up)),
        Key::Alt('k') => Some(WinCmd::Resize(WinDir::Down)),
        Key::Alt('j') => Some(WinCmd::Resize(WinDir::Left)),
        Key::Alt('l') => Some(WinCmd::Resize(WinDir::Right)),
        Key::Char('=') => Some(WinCmd::Equalize),
        Key::Char('r') => Some(WinCmd::Rotate),
        Key::Char(' ') => Some(WinCmd::FlipLayout),
        Key::Char('z') => Some(WinCmd::ZoomToggle),
        Key::Char('s') | Key::Char('x') => Some(WinCmd::SplitH),
        Key::Char('v') => Some(WinCmd::SplitV),
        Key::Char('n') => Some(WinCmd::SplitNew),
        Key::Char('q') => Some(WinCmd::CloseWindow),
        Key::Char('o') => Some(WinCmd::OnlyWindow),
        Key::Char('S') | Key::Char('X') => Some(WinCmd::SplitStay(SplitDir::Horizontal)),
        Key::Char('V') => Some(WinCmd::SplitStay(SplitDir::Vertical)),
        Key::Alt('s') | Key::Alt('x') => Some(WinCmd::SplitPreview(SplitDir::Horizontal)),
        Key::Alt('v') => Some(WinCmd::SplitPreview(SplitDir::Vertical)),
        _ => None,
    }
}

/// Second key of a window chord (`Ctrl+w …` / `<leader>w …`). `l` focuses
/// right (IJKL is universal), so the layout flip sits on Space.
pub fn window_token(key: Key) -> (r: Option<WinCmd>)
    ensures
        r == spec_window_token(key),
{
    match key {
        Key::Ctrl('w') => Some(WinCmd::FocusNext),
        Key::Char('i') | Key::Up => Some(WinCmd::Focus(WinDir::Up)),
        Key::Char('k') | Key::Down => Some(WinCmd::Focus(WinDir::Down)),
        Key::Char('j') | Key::Left => Some(WinCmd::Focus(WinDir::Left)),
        Key::Char('l') | Key::Right => Some(WinCmd::Focus(WinDir::Right)),
        Key::Alt('i') => Some(WinCmd::Resize(WinDir::Up)),
        Key::Alt('k') => Some(WinCmd::Resize(WinDir::Down)),
        Key::Alt('j') => Some(WinCmd::Resize(WinDir::Left)),
        Key::Alt('l') => Some(WinCmd::Resize(WinDir::Right)),
        Key::Char('=') => Some(WinCmd::Equalize),
        Key::Char('r') => Some(WinCmd::Rotate),
        Key::Char(' ') => Some(WinCmd::FlipLayout),
        Key::Char('z') => Some(WinCmd::ZoomToggle),
        Key::Char('s') | Key::Char('x') => Some(WinCmd::SplitH),
        Key::Char('v') => Some(WinCmd::SplitV),
        Key::Char('n') => Some(WinCmd::SplitNew),
        Key::Char('q') => Some(WinCmd::CloseWindow),
        Key::Char('o') => Some(WinCmd::OnlyWindow),
        Key::Char('S') | Key::Char('X') => Some(WinCmd::SplitStay(SplitDir::Horizontal)),
        Key::Char('V') => Some(WinCmd::SplitStay(SplitDir::Vertical)),
        Key::Alt('s') | Key::Alt('x') => Some(WinCmd::SplitPreview(SplitDir::Horizontal)),
        Key::Alt('v') => Some(WinCmd::SplitPreview(SplitDir::Vertical)),
        _ => None,
    }
}

/// The table of [`list_token`].
pub open spec fn spec_list_token(key: Key) -> Option<ListCmd> {
    match key {
        Key::Char('i') | Key::Up => Some(ListCmd::Up),
        Key::Char('k') | Key::Down => Some(ListCmd::Down),
        Key::Enter => Some(ListCmd::Select),
        Key::Char('x') => Some(ListCmd::CloseBuffer),
        Key::Esc | Key::Char('q') | Key::Ctrl('c') => Some(ListCmd::Dismiss),
        _ => None,
    }
}

/// Keys inside the buffer-list overlay: IJKL navigation, Enter picks,
/// `x` closes the selected buffer, Esc or `q` dismisses.
pub fn list_token(key: Key) -> (r: Option<ListCmd>)
    ensures
        r == spec_list_token(key),
{
    match key {
        Key::Char('i') | Key::Up => Some(ListCmd::Up),
        Key::Char('k') | Key::Down => Some(ListCmd::Down),
        Key::Enter => Some(ListCmd::Select),
        Key::Char('x') => Some(ListCmd::CloseBuffer),
        Key::Esc | Key::Char('q') | Key::Ctrl('c') => Some(ListCmd::Dismiss),
        _ => None,
    }
}

/// The table of [`picker_token`].
pub open spec fn spec_picker_token(key: Key) -> Option<PickerCmd> {
    match key {
        Key::Up | Key::Ctrl('i') => Some(PickerCmd::Up),
        Key::Down | Key::Ctrl('k') => Some(PickerCmd::Down),
        Key::Enter => Some(PickerCmd::Open),
        Key::Ctrl('v') => Some(PickerCmd::OpenVsplit),
        Key::Ctrl('x') => Some(PickerCmd::OpenHsplit),
        Key::CtrlEnter => Some(PickerCmd::CreatePath),
        Key::Ctrl('u') => Some(PickerCmd::ClearQuery),
        Key::Backspace => Some(PickerCmd::DeleteChar),
        Key::Esc | Key::Ctrl('c') => Some(PickerCmd::Dismiss),
        _ => None,
    }
}

/// Keys inside the file-picker overlay. Plain chars edit the query, so all
/// commands sit on control keys.
pub fn picker_token(key: Key) -> (r: Option<PickerCmd>)
    ensures
        r == spec_picker_token(key),
{
    match key {
        Key::Up | Key::Ctrl('i') => Some(PickerCmd::Up),
        Key::Down | Key::Ctrl('k') => Some(PickerCmd::Down),
        Key::Enter => Some(PickerCmd::Open),
        Key::Ctrl('v') => Some(PickerCmd::OpenVsplit),
        Key::Ctrl('x') => Some(PickerCmd::OpenHsplit),
        Key::CtrlEnter => Some(PickerCmd::CreatePath),
        Key::Ctrl('u') => Some(PickerCmd::ClearQuery),
        Key::Backspace => Some(PickerCmd::DeleteChar),
        Key::Esc | Key::Ctrl('c') => Some(PickerCmd::Dismiss),
        _ => None,
    }
}

/// The table of [`operator_extra_motion`].
pub open spec fn spec_operator_extra_motion(key: Key) -> Option<Motion> {
    match key {
        Key::Char('h') => Some(Motion::Left),
        _ => None,
    }
}

/// Extra motion meanings that only exist after an operator: `h` keeps
/// vim's left-motion there.
pub fn operator_extra_motion(key: Key) -> (r: Option<Motion>)
    ensures
        r == spec_operator_extra_motion(key),
{
    match key {
        Key::Char('h') => Some(Motion::Left),
        _ => None,
    }
}

/// The table of [`visual_extra`].
pub open spec fn spec_visual_extra(key: Key) -> Option<Token> {
    match key {
        Key::Char('h') => Some(Token::Motion(Motion::Left)),
        Key::Char('x') => Some(Token::Op(Op::Delete)),
        Key::Char('s') => Some(Token::Op(Op::Change)),
        _ => None,
    }
}

/// Visual-mode overrides: `h` is a motion again, and `x`/`s` alias
/// delete/change.
pub fn visual_extra(key: Key) -> (r: Option<Token>)
    ensures
        r == spec_visual_extra(key),
{
    match key {
        Key::Char('h') => Some(Token::Motion(Motion::Left)),
        Key::Char('x') => Some(Token::Op(Op::Delete)),
        Key::Char('s') => Some(Token::Op(Op::Change)),
        _ => None,
    }
}

} // verus!
