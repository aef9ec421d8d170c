//! Normal- and visual-mode key decisions: a key and the keys pending before
//! it give the next pending state and what the editor is to do.

use vstd::prelude::*;

use crate::config::keymap::{
    leader_token, normal_token, operator_extra_motion, spec_leader_token, spec_normal_token,
    spec_operator_extra_motion, spec_visual_extra, spec_window_token, visual_extra, window_token,
    Key,
};
use crate::editing::commands::{
    InsertEntry, LeaderCmd, Op, ScrollCmd, SimpleCmd, Token, VisualKind, WinCmd,
};
use crate::editing::motion::Motion;
use crate::editor::{combined_count, Awaiting, Mode, Pending};

verus! {

/// What a normal- or visual-mode key asks of the editor.
#[derive(Debug, Clone, Copy, PartialEq, Eq, Structural)]
pub enum NormalAction {
    /// Nothing beyond the change to the pending keys.
    Nothing,
    /// `Esc`: leave visual mode and calm the search highlight.
    Escape,
    /// `Ctrl+c` in visual mode: leave it.
    LeaveVisual,
    /// `Ctrl+c` elsewhere: tell how to quit.
    QuitHint,
    /// Move by a motion, or with an operator act on its target. `jump`:
    /// the move is a jump recorded on the jumplist.
    Motion { motion: Motion, op: Option<Op>, count: Option<usize>, jump: bool },
    /// `r{ch}`: replace `count` clusters by `ch`.
    ReplaceChars { ch: char, count: usize },
    /// `m{ch}`
    SetMark(char),
    /// `` `{ch} `` / `'{ch}`
    JumpMark { ch: char, exact: bool },
    /// A doubled operator (`dd`, `cc`, `yy`, `>>`) over `count` lines.
    LinewiseOp { op: Op, count: usize },
    EnterInsert(InsertEntry),
    /// Enter Replace (overtype) mode.
    EnterReplace,
    Simple { cmd: SimpleCmd, count: Option<usize> },
    Scroll(ScrollCmd),
    Window(WinCmd),
    /// `gd`
    Definition,
    /// `gK`
    InlayLine,
    /// `gv`
    ReselectVisual,
    /// `gp`
    TogglePreview,
    /// `gf`
    GotoFile,
    /// `gc` in visual mode.
    CommentSelection,
    /// `gcc` over `count` lines.
    CommentLines(usize),
    /// `ZZ`
    SaveAndQuit,
    /// `ZQ`
    ForceQuit,
    BufferList,
    /// Paste the cut register after (`true`) or before the cursor.
    PasteCut(bool),
    CodeActions,
    ExpandMacro,
    /// The symbol picker for the current buffer.
    SymbolPicker,
    /// Live grep across the project.
    Grep,
    ToggleGhostText,
    AlternateBuffer,
    FilePicker,
    Hover,
    EnterVisual(VisualKind),
    CommandLine,
    /// `/` (`true`) or `?`.
    SearchPrompt(bool),
    /// An operator on the visual selection.
    VisualOperate(Op),
    VisualToggleCase,
    VisualPaste,
    /// The cycle sum over the selected lines.
    CycleSum,
    /// `o` in visual mode (and `O` outside block mode): swap the ends.
    SwapEnds,
    /// `O` in block mode: swap the corners horizontally.
    SwapCorners,
    /// `:` in visual mode: the command line over the selected lines.
    SelectionCommandLine,
}

/// A decision: the action, and whether the key ends a macro recording
/// in progress.
#[derive(Debug, Clone, Copy, PartialEq, Eq, Structural)]
pub struct Decision {
    pub action: NormalAction,
    pub drop_recording: bool,
}

/// Nothing pending.
pub open spec fn cleared() -> Pending {
    Pending { count1: None, op: None, count2: None, awaiting: Awaiting::Idle }
}

pub open spec fn act(a: NormalAction) -> Decision {
    Decision { action: a, drop_recording: false }
}

pub open spec fn act_drop(a: NormalAction) -> Decision {
    Decision { action: a, drop_recording: true }
}

/// The key is dropped with whatever was pending.
pub open spec fn abandon() -> (Pending, Decision) {
    (cleared(), act(NormalAction::Nothing))
}

/// The combined count, one when none was typed.
pub open spec fn count_or_one(p: Pending) -> usize {
    match combined_count(p.count1, p.count2) {
        Some(c) => c,
        None => 1,
    }
}

/// Moves that land on the jumplist when taken without an operator.
pub open spec fn is_jump(m: Motion) -> bool {
    m is GotoFirst || m is GotoLast || m is ParaForward || m is ParaBack
}

/// A motion consumes the counts and the operator.
pub open spec fn spec_motion_step(p: Pending, m: Motion) -> (Pending, Decision) {
    (
        cleared(),
        act(
            NormalAction::Motion {
                motion: m,
                op: p.op,
                count: combined_count(p.count1, p.count2),
                jump: p.op is None && is_jump(m),
            },
        ),
    )
}

/// The same keys, now awaiting `a`.
pub open spec fn awaiting(p: Pending, a: Awaiting) -> (Pending, Decision) {
    (Pending { awaiting: a, ..p }, act(NormalAction::Nothing))
}

/// The second key of a `g` chord.
pub open spec fn spec_g_key(p: Pending, mode: Mode, key: Key) -> (Pending, Decision) {
    match key {
        Key::Char('g') => spec_motion_step(p, Motion::GotoFirst),
        Key::Char('d') => (cleared(), act_drop(NormalAction::Definition)),
        Key::Char('K') => (cleared(), act_drop(NormalAction::InlayLine)),
        Key::Char('v') => (cleared(), act_drop(NormalAction::ReselectVisual)),
        Key::Char('p') => (cleared(), act_drop(NormalAction::TogglePreview)),
        Key::Char('f') => (cleared(), act_drop(NormalAction::GotoFile)),
        Key::Char('c') => if mode is Visual {
            (cleared(), act_drop(NormalAction::CommentSelection))
        } else {
            awaiting(p, Awaiting::GComment)
        },
        _ => abandon(),
    }
}

/// The second key of a leader chord.
pub open spec fn spec_leader_key(p: Pending, key: Key) -> (Pending, Decision) {
    match spec_leader_token(key) {
        Some(LeaderCmd::BufferList) => (cleared(), act_drop(NormalAction::BufferList)),
        Some(LeaderCmd::PasteCutAfter) => (cleared(), act_drop(NormalAction::PasteCut(true))),
        Some(LeaderCmd::PasteCutBefore) => (cleared(), act_drop(NormalAction::PasteCut(false))),
        Some(LeaderCmd::WindowPrefix) => awaiting(p, Awaiting::Window),
        Some(LeaderCmd::CodePrefix) => awaiting(p, Awaiting::LeaderC),
        Some(LeaderCmd::RustPrefix) => awaiting(p, Awaiting::LeaderR),
        Some(LeaderCmd::DiagPrefix) => awaiting(p, Awaiting::LeaderD),
        Some(LeaderCmd::Symbols) => (cleared(), act_drop(NormalAction::SymbolPicker)),
        Some(LeaderCmd::Grep) => (cleared(), act_drop(NormalAction::Grep)),
        None => abandon(),
    }
}

/// A key completing (or abandoning) the chord `p` awaits.
pub open spec fn spec_chord_key(p: Pending, mode: Mode, key: Key) -> (Pending, Decision) {
    match p.awaiting {
        Awaiting::Find(kind) => match key {
            Key::Char(ch) => spec_motion_step(p, Motion::Find { kind, ch }),
            _ => abandon(),
        },
        Awaiting::Replace => match key {
            Key::Char(ch) => (
                cleared(),
                act(NormalAction::ReplaceChars { ch, count: count_or_one(p) }),
            ),
            _ => abandon(),
        },
        Awaiting::SetMark => match key {
            Key::Char(ch) => (cleared(), act(NormalAction::SetMark(ch))),
            _ => abandon(),
        },
        Awaiting::JumpMark { exact } => match key {
            Key::Char(ch) => (cleared(), act(NormalAction::JumpMark { ch, exact })),
            _ => abandon(),
        },
        Awaiting::G => spec_g_key(p, mode, key),
        Awaiting::GComment => if key == Key::Char('c') {
            (cleared(), act_drop(NormalAction::CommentLines(count_or_one(p))))
        } else {
            abandon()
        },
        Awaiting::Z => (
            cleared(),
            act(
                match key {
                    Key::Char('z') => NormalAction::Scroll(ScrollCmd::CenterCursor),
                    Key::Char('t') => NormalAction::Scroll(ScrollCmd::CursorTop),
                    Key::Char('b') => NormalAction::Scroll(ScrollCmd::CursorBottom),
                    _ => NormalAction::Nothing,
                },
            ),
        ),
        Awaiting::ZUpper => (
            cleared(),
            act(
                match key {
                    Key::Char('Z') => NormalAction::SaveAndQuit,
                    Key::Char('Q') => NormalAction::ForceQuit,
                    _ => NormalAction::Nothing,
                },
            ),
        ),
        Awaiting::Leader => spec_leader_key(p, key),
        Awaiting::LeaderC => if key == Key::Char('a') {
            (cleared(), act_drop(NormalAction::CodeActions))
        } else {
            abandon()
        },
        Awaiting::LeaderR => if key == Key::Char('m') {
            (cleared(), act_drop(NormalAction::ExpandMacro))
        } else {
            abandon()
        },
        Awaiting::LeaderD => if key == Key::Char('h') {
            (cleared(), act_drop(NormalAction::ToggleGhostText))
        } else {
            abandon()
        },
        Awaiting::Window => match spec_window_token(key) {
            Some(cmd) => (cleared(), act_drop(NormalAction::Window(cmd))),
            None => abandon(),
        },
        Awaiting::TextObject { .. } => abandon(),
        Awaiting::Idle => abandon(),
    }
}

/// The value of a digit key.
pub open spec fn spec_digit(key: Key) -> Option<usize> {
    match key {
        Key::Char('0') => Some(0),
        Key::Char('1') => Some(1),
        Key::Char('2') => Some(2),
        Key::Char('3') => Some(3),
        Key::Char('4') => Some(4),
        Key::Char('5') => Some(5),
        Key::Char('6') => Some(6),
        Key::Char('7') => Some(7),
        Key::Char('8') => Some(8),
        Key::Char('9') => Some(9),
        _ => None,
    }
}

/// A count with one more digit: `v * 10 + d` (the product saturating).
pub open spec fn spec_push_digit(c: Option<usize>, d: usize) -> usize {
    push_digit_value(c, d) as usize
}

/// `v * 10 + d`, the product saturating at `usize::MAX` (the sum does not).
pub open spec fn push_digit_value(c: Option<usize>, d: usize) -> int {
    let v: int = match c {
        Some(v) => v as int,
        None => 0,
    };
    let m = if v * 10 > usize::MAX {
        usize::MAX as int
    } else {
        v * 10
    };
    m + d
}

/// The key, if it is a count digit with nothing awaited, extends the count
/// without overflowing (the saturated product plus the digit fits).
pub open spec fn digit_fits(p: Pending, key: Key) -> bool {
    (p.awaiting == Awaiting::Idle && spec_digit(key) is Some && (spec_digit(key) != Some(0usize)
        || count_slot(p) is Some)) ==> push_digit_value(count_slot(p), spec_digit(key).unwrap())
        <= usize::MAX
}

/// The count a digit goes to: the second one once an operator is pending.
pub open spec fn count_slot(p: Pending) -> Option<usize> {
    if p.op is Some {
        p.count2
    } else {
        p.count1
    }
}

pub open spec fn with_digit(p: Pending, d: usize) -> Pending {
    if p.op is Some {
        Pending { count2: Some(spec_push_digit(p.count2, d)), ..p }
    } else {
        Pending { count1: Some(spec_push_digit(p.count1, d)), ..p }
    }
}

/// Tokens that keep their normal meaning in visual mode.
pub open spec fn visual_passes(t: Token) -> bool {
    t is Motion || t is FindStart || t is Scroll || t is PrefixG
}

/// A visual-mode token with a meaning of its own.
pub open spec fn spec_visual_token(mode: Mode, t: Token) -> (Pending, Decision) {
    match t {
        Token::Op(op) => (cleared(), act_drop(NormalAction::VisualOperate(op))),
        Token::Simple(SimpleCmd::DeleteRight) => (
            cleared(),
            act_drop(NormalAction::VisualOperate(Op::Delete)),
        ),
        Token::Simple(SimpleCmd::ToggleCase) => (cleared(), act_drop(NormalAction::VisualToggleCase)),
        Token::Simple(SimpleCmd::PasteAfter) => (cleared(), act_drop(NormalAction::VisualPaste)),
        Token::Simple(SimpleCmd::PasteBefore) => (cleared(), act_drop(NormalAction::VisualPaste)),
        Token::Visual(kind) => (cleared(), act(NormalAction::EnterVisual(kind))),
        Token::Hover => (cleared(), act(NormalAction::CycleSum)),
        Token::Insert(InsertEntry::OpenBelow) => (cleared(), act(NormalAction::SwapEnds)),
        Token::Insert(InsertEntry::OpenAbove) => (
            cleared(),
            act(
                if mode == Mode::Visual(VisualKind::Block) {
                    NormalAction::SwapCorners
                } else {
                    NormalAction::SwapEnds
                },
            ),
        ),
        Token::CmdLine => (cleared(), act_drop(NormalAction::SelectionCommandLine)),
        _ => abandon(),
    }
}

/// A token applied to the pending keys.
pub open spec fn spec_token(p: Pending, t: Token) -> (Pending, Decision) {
    match t {
        Token::Motion(m) => spec_motion_step(p, m),
        Token::Op(op) => match p.op {
            Some(q) => if q == op {
                (cleared(), act(NormalAction::LinewiseOp { op, count: count_or_one(p) }))
            } else {
                abandon()
            },
            None => (Pending { op: Some(op), ..p }, act(NormalAction::Nothing)),
        },
        Token::Insert(entry) => if p.op is Some {
            abandon()
        } else {
            (cleared(), act(NormalAction::EnterInsert(entry)))
        },
        Token::ReplaceMode => if p.op is Some {
            abandon()
        } else {
            (cleared(), act(NormalAction::EnterReplace))
        },
        Token::Simple(cmd) => if p.op is Some {
            abandon()
        } else {
            (
                cleared(),
                act(NormalAction::Simple { cmd, count: combined_count(p.count1, p.count2) }),
            )
        },
        Token::Scroll(s) => (cleared(), act(NormalAction::Scroll(s))),
        Token::FindStart(kind) => awaiting(p, Awaiting::Find(kind)),
        Token::ReplaceStart => if p.op is Some {
            abandon()
        } else {
            awaiting(p, Awaiting::Replace)
        },
        Token::SetMark => awaiting(p, Awaiting::SetMark),
        Token::JumpMark { exact } => awaiting(p, Awaiting::JumpMark { exact }),
        Token::Leader => if p.op is Some {
            abandon()
        } else {
            awaiting(p, Awaiting::Leader)
        },
        Token::PrefixWindow => if p.op is Some {
            abandon()
        } else {
            awaiting(p, Awaiting::Window)
        },
        Token::AlternateBuffer => (cleared(), act_drop(NormalAction::AlternateBuffer)),
        Token::FilePicker => (cleared(), act_drop(NormalAction::FilePicker)),
        Token::Hover => (cleared(), act_drop(NormalAction::Hover)),
        Token::PrefixG => awaiting(p, Awaiting::G),
        Token::PrefixZ => if p.op is Some {
            abandon()
        } else {
            awaiting(p, Awaiting::Z)
        },
        Token::PrefixZUpper => if p.op is Some {
            abandon()
        } else {
            awaiting(p, Awaiting::ZUpper)
        },
        Token::Visual(kind) => (cleared(), act_drop(NormalAction::EnterVisual(kind))),
        Token::CmdLine => (cleared(), act_drop(NormalAction::CommandLine)),
        Token::SearchPrompt(forward) => (cleared(), act_drop(NormalAction::SearchPrompt(forward))),
    }
}

/// What a key means in `mode` (visual overrides first).
pub open spec fn spec_mode_token(mode: Mode, key: Key) -> Option<Token> {
    if mode is Visual {
        match spec_visual_extra(key) {
            Some(t) => Some(t),
            None => spec_normal_token(key),
        }
    } else {
        spec_normal_token(key)
    }
}

/// A key with no chord pending.
pub open spec fn spec_dispatch(p: Pending, mode: Mode, key: Key) -> (Pending, Decision) {
    if key == Key::Esc {
        (cleared(), act_drop(NormalAction::Escape))
    } else if key == Key::Ctrl('c') {
        (
            cleared(),
            act_drop(
                if mode is Visual {
                    NormalAction::LeaveVisual
                } else {
                    NormalAction::QuitHint
                },
            ),
        )
    } else if spec_digit(key) is Some && (spec_digit(key) != Some(0usize) || count_slot(p) is Some) {
        (with_digit(p, spec_digit(key).unwrap()), act(NormalAction::Nothing))
    } else if p.op is Some && spec_operator_extra_motion(key) is Some {
        spec_motion_step(p, spec_operator_extra_motion(key).unwrap())
    } else {
        match spec_mode_token(mode, key) {
            None => abandon(),
            Some(t) => if mode is Visual && !visual_passes(t) {
                spec_visual_token(mode, t)
            } else {
                spec_token(p, t)
            },
        }
    }
}

/// The decision on `key` in `mode` with `p` pending.
pub open spec fn spec_normal_key(p: Pending, mode: Mode, key: Key) -> (Pending, Decision) {
    if p.awaiting == Awaiting::Idle {
        spec_dispatch(p, mode, key)
    } else {
        spec_chord_key(p, mode, key)
    }
}

/// `Esc` abandons whatever was pending, whatever the mode and the chord;
/// with no chord pending it also asks the editor to leave visual mode.
pub proof fn lemma_escape_clears(p: Pending, mode: Mode)
    ensures
        spec_normal_key(p, mode, Key::Esc).0 == cleared(),
        spec_normal_key(p, mode, Key::Esc).1.action == (if p.awaiting == Awaiting::Idle {
            NormalAction::Escape
        } else {
            NormalAction::Nothing
        }),
{
}

/// A key that does anything leaves nothing pending; only a key that does
/// nothing may keep (or extend) the pending keys.
pub proof fn lemma_acting_clears(p: Pending, mode: Mode, key: Key)
    ensures
        ({
            let (p1, d) = spec_normal_key(p, mode, key);
            d.action != NormalAction::Nothing ==> p1 == cleared()
        }),
{
}

/// An operator key pressed twice acts on whole lines, as many as the
/// counts typed before and between the two presses multiply to.
pub proof fn lemma_doubled_operator(p: Pending, mode: Mode, key: Key, op: Op)
    requires
        p.awaiting == Awaiting::Idle,
        p.op is None,
        p.count2 is None,
        !(mode is Visual),
        spec_normal_token(key) == Some(Token::Op(op)),
    ensures
        ({
            let (p1, d1) = spec_normal_key(p, mode, key);
            &&& d1.action == NormalAction::Nothing
            &&& p1.op == Some(op)
            &&& spec_normal_key(p1, mode, key) == (
                cleared(),
                act(NormalAction::LinewiseOp { op, count: count_or_one(p) }),
            )
        }),
{
}

fn clear(p: &mut Pending)
    ensures
        *final(p) == cleared(),
{
    *p = Pending { count1: None, op: None, count2: None, awaiting: Awaiting::Idle };
}

fn done(p: &mut Pending, a: NormalAction, drop_recording: bool) -> (d: Decision)
    ensures
        *final(p) == cleared(),
        d == (Decision { action: a, drop_recording }),
{
    clear(p);
    Decision { action: a, drop_recording }
}

fn drop_keys(p: &mut Pending) -> (d: Decision)
    ensures
        (*final(p), d) == abandon(),
{
    done(p, NormalAction::Nothing, false)
}

fn wait_for(p: &mut Pending, a: Awaiting) -> (d: Decision)
    ensures
        (*final(p), d) == awaiting(*old(p), a),
{
    p.awaiting = a;
    Decision { action: NormalAction::Nothing, drop_recording: false }
}

fn motion_step(p: &mut Pending, m: Motion) -> (d: Decision)
    ensures
        (*final(p), d) == spec_motion_step(*old(p), m),
{
    let op = p.op;
    let count = p.take_count();
    let jump = op.is_none() && matches!(
        m,
        Motion::GotoFirst | Motion::GotoLast | Motion::ParaForward | Motion::ParaBack
    );
    done(p, NormalAction::Motion { motion: m, op, count, jump }, false)
}

fn take_count_or_one(p: &mut Pending) -> (c: usize)
    ensures
        c == count_or_one(*old(p)),
{
    match p.take_count() {
        Some(c) => c,
        None => 1,
    }
}

fn g_key(p: &mut Pending, mode: Mode, key: Key) -> (d: Decision)
    ensures
        (*final(p), d) == spec_g_key(*old(p), mode, key),
{
    match key {
        Key::Char('g') => motion_step(p, Motion::GotoFirst),
        Key::Char('d') => done(p, NormalAction::Definition, true),
        Key::Char('K') => done(p, NormalAction::InlayLine, true),
        Key::Char('v') => done(p, NormalAction::ReselectVisual, true),
        Key::Char('p') => done(p, NormalAction::TogglePreview, true),
        Key::Char('f') => done(p, NormalAction::GotoFile, true),
        Key::Char('c') => if matches!(mode, Mode::Visual(_)) {
            done(p, NormalAction::CommentSelection, true)
        } else {
            wait_for(p, Awaiting::GComment)
        },
        _ => drop_keys(p),
    }
}

fn leader_key(p: &mut Pending, key: Key) -> (d: Decision)
    ensures
        (*final(p), d) == spec_leader_key(*old(p), key),
{
    match leader_token(key) {
        Some(LeaderCmd::BufferList) => done(p, NormalAction::BufferList, true),
        Some(LeaderCmd::PasteCutAfter) => done(p, NormalAction::PasteCut(true), true),
        Some(LeaderCmd::PasteCutBefore) => done(p, NormalAction::PasteCut(false), true),
        Some(LeaderCmd::WindowPrefix) => wait_for(p, Awaiting::Window),
        Some(LeaderCmd::CodePrefix) => wait_for(p, Awaiting::LeaderC),
        Some(LeaderCmd::RustPrefix) => wait_for(p, Awaiting::LeaderR),
        Some(LeaderCmd::DiagPrefix) => wait_for(p, Awaiting::LeaderD),
        Some(LeaderCmd::Symbols) => done(p, NormalAction::SymbolPicker, true),
        Some(LeaderCmd::Grep) => done(p, NormalAction::Grep, true),
        None => drop_keys(p),
    }
}

fn chord_key(p: &mut Pending, mode: Mode, key: Key) -> (d: Decision)
    ensures
        (*final(p), d) == spec_chord_key(*old(p), mode, key),
{
    match p.awaiting {
        Awaiting::Find(kind) => match key {
            Key::Char(ch) => motion_step(p, Motion::Find { kind, ch }),
            _ => drop_keys(p),
        },
        Awaiting::Replace => match key {
            Key::Char(ch) => {
                let count = take_count_or_one(p);
                done(p, NormalAction::ReplaceChars { ch, count }, false)
            },
            _ => drop_keys(p),
        },
        Awaiting::SetMark => match key {
            Key::Char(ch) => done(p, NormalAction::SetMark(ch), false),
            _ => drop_keys(p),
        },
        Awaiting::JumpMark { exact } => match key {
            Key::Char(ch) => done(p, NormalAction::JumpMark { ch, exact }, false),
            _ => drop_keys(p),
        },
        Awaiting::G => g_key(p, mode, key),
        Awaiting::GComment => if key == Key::Char('c') {
            let count = take_count_or_one(p);
            done(p, NormalAction::CommentLines(count), true)
        } else {
            drop_keys(p)
        },
        Awaiting::Z => {
            let a = match key {
                Key::Char('z') => NormalAction::Scroll(ScrollCmd::CenterCursor),
                Key::Char('t') => NormalAction::Scroll(ScrollCmd::CursorTop),
                Key::Char('b') => NormalAction::Scroll(ScrollCmd::CursorBottom),
                _ => NormalAction::Nothing,
            };
            done(p, a, false)
        },
        Awaiting::ZUpper => {
            let a = match key {
                Key::Char('Z') => NormalAction::SaveAndQuit,
                Key::Char('Q') => NormalAction::ForceQuit,
                _ => NormalAction::Nothing,
            };
            done(p, a, false)
        },
        Awaiting::Leader => leader_key(p, key),
        Awaiting::LeaderC => if key == Key::Char('a') {
            done(p, NormalAction::CodeActions, true)
        } else {
            drop_keys(p)
        },
        Awaiting::LeaderR => if key == Key::Char('m') {
            done(p, NormalAction::ExpandMacro, true)
        } else {
            drop_keys(p)
        },
        Awaiting::LeaderD => if key == Key::Char('h') {
            done(p, NormalAction::ToggleGhostText, true)
        } else {
            drop_keys(p)
        },
        Awaiting::Window => match window_token(key) {
            Some(cmd) => done(p, NormalAction::Window(cmd), true),
            None => drop_keys(p),
        },
        Awaiting::TextObject { .. } => drop_keys(p),
        Awaiting::Idle => drop_keys(p),
    }
}

fn digit(key: Key) -> (r: Option<usize>)
    ensures
        r == spec_digit(key),
{
    match key {
        Key::Char('0') => Some(0),
        Key::Char('1') => Some(1),
        Key::Char('2') => Some(2),
        Key::Char('3') => Some(3),
        Key::Char('4') => Some(4),
        Key::Char('5') => Some(5),
        Key::Char('6') => Some(6),
        Key::Char('7') => Some(7),
        Key::Char('8') => Some(8),
        Key::Char('9') => Some(9),
        _ => None,
    }
}

fn push_digit(c: Option<usize>, d: usize) -> (n: usize)
    requires
        push_digit_value(c, d) <= usize::MAX,
        d <= 9,
    ensures
        n == spec_push_digit(c, d),
{
    let v: usize = match c {
        Some(v) => v,
        None => 0,
    };
    let m: usize = match v.checked_mul(10) {
        Some(m) => m,
        None => usize::MAX,
    };
    m + d
}

fn visual_token(p: &mut Pending, mode: Mode, t: Token) -> (d: Decision)
    ensures
        (*final(p), d) == spec_visual_token(mode, t),
{
    match t {
        Token::Op(op) => done(p, NormalAction::VisualOperate(op), true),
        Token::Simple(SimpleCmd::DeleteRight) => done(p, NormalAction::VisualOperate(Op::Delete), true),
        Token::Simple(SimpleCmd::ToggleCase) => done(p, NormalAction::VisualToggleCase, true),
        Token::Simple(SimpleCmd::PasteAfter) => done(p, NormalAction::VisualPaste, true),
        Token::Simple(SimpleCmd::PasteBefore) => done(p, NormalAction::VisualPaste, true),
        Token::Visual(kind) => done(p, NormalAction::EnterVisual(kind), false),
        Token::Hover => done(p, NormalAction::CycleSum, false),
        Token::Insert(InsertEntry::OpenBelow) => done(p, NormalAction::SwapEnds, false),
        Token::Insert(InsertEntry::OpenAbove) => {
            let a = if mode == Mode::Visual(VisualKind::Block) {
                NormalAction::SwapCorners
            } else {
                NormalAction::SwapEnds
            };
            done(p, a, false)
        },
        Token::CmdLine => done(p, NormalAction::SelectionCommandLine, true),
        _ => drop_keys(p),
    }
}

fn token_step(p: &mut Pending, t: Token) -> (d: Decision)
    ensures
        (*final(p), d) == spec_token(*old(p), t),
{
    let op_pending = p.op.is_some();
    match t {
        Token::Motion(m) => motion_step(p, m),
        Token::Op(op) => match p.op {
            Some(q) => if q == op {
                let count = take_count_or_one(p);
                done(p, NormalAction::LinewiseOp { op, count }, false)
            } else {
                drop_keys(p)
            },
            None => {
                p.op = Some(op);
                Decision { action: NormalAction::Nothing, drop_recording: false }
            },
        },
        Token::Insert(entry) => if op_pending {
            drop_keys(p)
        } else {
            done(p, NormalAction::EnterInsert(entry), false)
        },
        Token::ReplaceMode => if op_pending {
            drop_keys(p)
        } else {
            done(p, NormalAction::EnterReplace, false)
        },
        Token::Simple(cmd) => if op_pending {
            drop_keys(p)
        } else {
            let count = p.take_count();
            done(p, NormalAction::Simple { cmd, count }, false)
        },
        Token::Scroll(s) => done(p, NormalAction::Scroll(s), false),
        Token::FindStart(kind) => wait_for(p, Awaiting::Find(kind)),
        Token::ReplaceStart => if op_pending {
            drop_keys(p)
        } else {
            wait_for(p, Awaiting::Replace)
        },
        Token::SetMark => wait_for(p, Awaiting::SetMark),
        Token::JumpMark { exact } => wait_for(p, Awaiting::JumpMark { exact }),
        Token::Leader => if op_pending {
            drop_keys(p)
        } else {
            wait_for(p, Awaiting::Leader)
        },
        Token::PrefixWindow => if op_pending {
            drop_keys(p)
        } else {
            wait_for(p, Awaiting::Window)
        },
        Token::AlternateBuffer => done(p, NormalAction::AlternateBuffer, true),
        Token::FilePicker => done(p, NormalAction::FilePicker, true),
        Token::Hover => done(p, NormalAction::Hover, true),
        Token::PrefixG => wait_for(p, Awaiting::G),
        Token::PrefixZ => if op_pending {
            drop_keys(p)
        } else {
            wait_for(p, Awaiting::Z)
        },
        Token::PrefixZUpper => if op_pending {
            drop_keys(p)
        } else {
            wait_for(p, Awaiting::ZUpper)
        },
        Token::Visual(kind) => done(p, NormalAction::EnterVisual(kind), true),
        Token::CmdLine => done(p, NormalAction::CommandLine, true),
        Token::SearchPrompt(forward) => done(p, NormalAction::SearchPrompt(forward), true),
    }
}

fn dispatch(p: &mut Pending, mode: Mode, key: Key) -> (d: Decision)
    requires
        digit_fits(*old(p), key),
        old(p).awaiting == Awaiting::Idle,
    ensures
        (*final(p), d) == spec_dispatch(*old(p), mode, key),
{
    if key == Key::Esc {
        return done(p, NormalAction::Escape, true);
    }
    let visual = matches!(mode, Mode::Visual(_));
    if key == Key::Ctrl('c') {
        let a = if visual {
            NormalAction::LeaveVisual
        } else {
            NormalAction::QuitHint
        };
        return done(p, a, true);
    }
    if let Some(dv) = digit(key) {
        let slot = if p.op.is_some() {
            p.count2
        } else {
            p.count1
        };
        if dv != 0 || slot.is_some() {
            let n = push_digit(slot, dv);
            if p.op.is_some() {
                p.count2 = Some(n);
            } else {
                p.count1 = Some(n);
            }
            return Decision { action: NormalAction::Nothing, drop_recording: false };
        }
    }
    if p.op.is_some() {
        if let Some(m) = operator_extra_motion(key) {
            return motion_step(p, m);
        }
    }
    let token = if visual {
        match visual_extra(key) {
            Some(t) => Some(t),
            None => normal_token(key),
        }
    } else {
        normal_token(key)
    };
    match token {
        None => drop_keys(p),
        Some(t) => {
            let passes = matches!(
                t,
                Token::Motion(_) | Token::FindStart(_) | Token::Scroll(_) | Token::PrefixG
            );
            if visual && !passes {
                visual_token(p, mode, t)
            } else {
                token_step(p, t)
            }
        },
    }
}

/// How far a scrolling command moves the view and the cursor: half a
/// screen, or a screen less two lines, at least one line; none for the
/// commands that only recenter.
pub fn scroll_lines(cmd: ScrollCmd, height: usize) -> (n: Option<usize>)
    ensures
        n == (match cmd {
            ScrollCmd::HalfDown | ScrollCmd::HalfUp => Some(
                if height / 2 < 1 {
                    1usize
                } else {
                    (height / 2) as usize
                },
            ),
            ScrollCmd::PageDown | ScrollCmd::PageUp => Some(
                if height < 3 {
                    1usize
                } else {
                    (height - 2) as usize
                },
            ),
            _ => None,
        }),
{
    match cmd {
        ScrollCmd::HalfDown | ScrollCmd::HalfUp => {
            let h = height / 2;
            Some(
                if h < 1 {
                    1
                } else {
                    h
                },
            )
        },
        ScrollCmd::PageDown | ScrollCmd::PageUp => {
            let h = height.saturating_sub(2);
            Some(
                if h < 1 {
                    1
                } else {
                    h
                },
            )
        },
        _ => None,
    }
}

/// The top line after `zz`, `zt` or `zb` puts the cursor's line in the
/// middle, at the top or at the bottom of a view `height` lines tall;
/// other commands keep `top`.
pub fn recenter_top(cmd: ScrollCmd, cursor_line: usize, height: usize, top: usize) -> (t: usize)
    requires
        cursor_line < usize::MAX,
    ensures
        t == (match cmd {
            ScrollCmd::CenterCursor => if cursor_line < height / 2 {
                0
            } else {
                (cursor_line - height / 2) as usize
            },
            ScrollCmd::CursorTop => cursor_line,
            ScrollCmd::CursorBottom => if cursor_line + 1 < height {
                0
            } else {
                (cursor_line + 1 - height) as usize
            },
            _ => top,
        }),
{
    match cmd {
        ScrollCmd::CenterCursor => cursor_line.saturating_sub(height / 2),
        ScrollCmd::CursorTop => cursor_line,
        ScrollCmd::CursorBottom => (cursor_line + 1).saturating_sub(height),
        _ => top,
    }
}

impl Pending {
    /// Whether [`Pending::normal_key`] can take `key` (see [`digit_fits`]).
    pub fn key_fits(&self, key: Key) -> (b: bool)
        ensures
            b == digit_fits(*self, key),
    {
        if self.awaiting != Awaiting::Idle {
            return true;
        }
        let d = match digit(key) {
            None => {
                return true;
            },
            Some(d) => d,
        };
        let slot = if self.op.is_some() {
            self.count2
        } else {
            self.count1
        };
        if d == 0 && slot.is_none() {
            return true;
        }
        let v: usize = match slot {
            Some(v) => v,
            None => 0,
        };
        let m: usize = match v.checked_mul(10) {
            Some(m) => m,
            None => usize::MAX,
        };
        m.checked_add(d).is_some()
    }

    /// Decides on a normal- or visual-mode key: chords first (`g`, `z`,
    /// `Z`, leader, window, find, replace, marks), then `Esc`, `Ctrl+c`,
    /// count digits and the keymap's tokens.
    pub fn normal_key(&mut self, mode: Mode, key: Key) -> (d: Decision)
        requires
            digit_fits(*old(self), key),
        ensures
            (*final(self), d) == spec_normal_key(*old(self), mode, key),
    {
        if self.awaiting == Awaiting::Idle {
            dispatch(self, mode, key)
        } else {
            chord_key(self, mode, key)
        }
    }
}

} // verus!
