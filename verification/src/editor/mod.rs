//! The editor's state: modes, pending keys, buffers list rows, the window
//! tree, and the command-line text rules.

pub mod analyzer;
pub mod block;
pub mod edits;
pub mod entry;
pub mod cmdline;
pub mod file_picker;
pub mod hint;
pub mod jumps;
pub mod insert;
pub mod layout;
pub mod lsp_events;
pub mod normal;
pub mod operator;
pub mod screen;
pub mod shift;
pub mod simple;
pub mod slots;
pub mod text_edit;
pub mod testing;
pub mod visual;
pub mod visual_block;
pub mod windows;

use vstd::prelude::*;

use crate::editing::commands::{FindKind, Op, VisualKind};

verus! {

/// Stable buffer number, shown in the buffer list (numbers are assigned at
/// creation and never reused).
pub type BufId = usize;

/// The editor's mode.
#[derive(Debug, Clone, Copy, PartialEq, Eq, Structural)]
pub enum Mode {
    Normal,
    Insert,
    /// Overtype: typed characters replace the ones under the cursor.
    Replace,
    Command,
    Visual(VisualKind),
}

/// The key a pending command waits for.
#[derive(Debug, Clone, Copy, PartialEq, Eq, Structural)]
pub enum Awaiting {
    /// Nothing awaited.
    Idle,
    Find(FindKind),
    Replace,
    G,
    Z,
    ZUpper,
    Leader,
    /// `Ctrl+w` / `<leader>w` pressed, second key pending.
    Window,
    /// `<leader>c…` — code chord.
    LeaderC,
    /// `<leader>r…` — rust chord.
    LeaderR,
    /// `<leader>d…` — diagnostics chord.
    LeaderD,
    /// `gc…` — comment chord.
    GComment,
    /// `m` pressed — awaiting the mark letter to set.
    SetMark,
    /// `` ` `` / `'` pressed — awaiting the mark letter to jump to.
    JumpMark { exact: bool },
    /// `a`/`n` pressed as an operator target or in visual mode — awaiting
    /// the object key.
    TextObject { around: bool },
}

impl Default for Awaiting {
    fn default() -> (a: Self)
        ensures
            a == Awaiting::Idle,
    {
        Awaiting::Idle
    }
}

/// Keys typed towards a command that is not complete yet.
#[derive(Debug)]
pub struct Pending {
    pub count1: Option<usize>,
    pub op: Option<Op>,
    pub count2: Option<usize>,
    pub awaiting: Awaiting,
}

impl Default for Pending {
    fn default() -> (p: Self)
        ensures
            p.count1 is None,
            p.op is None,
            p.count2 is None,
            p.awaiting == Awaiting::Idle,
    {
        Pending { count1: None, op: None, count2: None, awaiting: Awaiting::Idle }
    }
}

/// The combined count of `c1` and `c2`: their product (an absent count is
/// one), saturating, at least one; none when neither was typed.
pub open spec fn combined_count(c1: Option<usize>, c2: Option<usize>) -> Option<usize> {
    if c1 is None && c2 is None {
        None
    } else {
        let a: int = match c1 {
            Some(x) => x as int,
            None => 1,
        };
        let b: int = match c2 {
            Some(x) => x as int,
            None => 1,
        };
        let p = if a * b > usize::MAX {
            usize::MAX as int
        } else {
            a * b
        };
        Some(if p < 1 {
            1usize
        } else {
            p as usize
        })
    }
}

impl Pending {
    /// Whether nothing is pending.
    pub fn is_idle(&self) -> (b: bool)
        ensures
            b == (self.count1 is None && self.op is None && self.count2 is None && self.awaiting
                == Awaiting::Idle),
    {
        self.count1.is_none() && self.op.is_none() && self.count2.is_none() && matches!(
            self.awaiting,
            Awaiting::Idle
        )
    }

    /// Combined count: `2d3w` deletes six words. Both counts are consumed.
    pub fn take_count(&mut self) -> (r: Option<usize>)
        ensures
            r == combined_count(old(self).count1, old(self).count2),
            final(self).count1 is None,
            final(self).count2 is None,
            final(self).op == old(self).op,
            final(self).awaiting == old(self).awaiting,
    {
        let c1 = self.count1.take();
        let c2 = self.count2.take();
        if c1.is_none() && c2.is_none() {
            None
        } else {
            let a: usize = match c1 {
                Some(x) => x,
                None => 1,
            };
            let b: usize = match c2 {
                Some(x) => x,
                None => 1,
            };
            let p: usize = match a.checked_mul(b) {
                Some(v) => v,
                None => usize::MAX,
            };
            Some(if p < 1 {
                1
            } else {
                p
            })
        }
    }
}

/// The size of the text area.
#[derive(Debug, Clone, Copy)]
pub struct View {
    pub width: usize,
    pub height: usize,
}

/// A message on the command line.
pub struct Message {
    pub text: String,
    pub error: bool,
}

/// One row of the buffer list, for rendering and tests.
pub struct BufEntry {
    pub id: BufId,
    pub name: String,
    pub modified: bool,
    pub current: bool,
    pub alternate: bool,
}

/// State of the buffer-list overlay.
pub struct BufferList {
    pub selected: usize,
}

/// What the command line is currently for.
#[derive(Debug, Clone, Copy, PartialEq, Eq, Structural)]
pub enum Prompt {
    Command,
    Search { forward: bool },
}

/// The yanked region, briefly highlighted.
#[derive(Clone, Copy)]
pub enum FlashRegion {
    /// Absolute char range.
    Char(usize, usize),
    /// Inclusive line range.
    Line(usize, usize),
    /// Lines l1..=l2, display cells left..=right.
    Block(usize, usize, usize, usize),
}

} // verus!
