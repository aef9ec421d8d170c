//! The file picker's data and its text rules: grep result rows, the
//! preview title, and which new paths may be created.

use vstd::prelude::*;

use crate::chars::{
    chars_in_bytes, chars_of, chars_spanning, dec, is_boundary, push_chars, push_dec, push_str,
    slice_vec, trim, trim_start, trim_start_chars, utf8_size, utf8_size_of, ws_prefix_len,
};
use crate::config::keymap::{picker_token, spec_picker_token, Key};
use crate::editing::commands::{PickerCmd, SplitDir};
use crate::paths::{file_name, file_name_of, relative_no_parent, relative_without_parent};

verus! {

/// What the picker is picking: files to open, symbols in the current
/// buffer, or lines matching a pattern across the project.
#[derive(PartialEq, Eq, Clone, Copy, Debug, Structural)]
pub enum PickerKind {
    Files,
    Symbols,
    Grep,
}

/// One grep result: where to jump when it's chosen (path relative to the
/// root, 0-based line and char column of the match).
pub struct GrepHit {
    pub path: String,
    pub line: usize,
    pub col: usize,
}

/// Live-grep caps: stop after this many matches.
pub const MAX_GREP_MATCHES: usize = 500;

/// Never grep a file bigger than this.
pub const MAX_GREP_FILE_BYTES: u64 = 524288;

/// Hard cap on the number of files walked.
pub const MAX_FILES: usize = 50000;

/// Preview reads at most this many bytes.
pub const PREVIEW_BYTES: usize = 131072;

/// Preview renders at most this many lines.
pub const PREVIEW_LINES: usize = 240;

/// Longest grep line shown, in chars.
pub const GREP_ROW_MAX: usize = 200;

/// The selected file's head, for the picker's preview pane.
pub struct Preview {
    pub lines: Vec<String>,
    /// Registry language for highlighting, if detected (never for a hex dump).
    pub lang: Option<String>,
    /// A one-line header: the size for a binary hex dump, or a standalone
    /// status (empty / blank / unreadable) with no lines.
    pub note: Option<String>,
    /// The line within `lines` to highlight (a grep match); none otherwise.
    pub focus: Option<usize>,
}

/// One entry of the filtered list.
pub struct Match {
    pub item: usize,
    pub score: u32,
    /// Char positions of the matched query characters, for highlighting.
    pub indices: Vec<u32>,
}

/// The picker's state.
pub struct FilePicker {
    pub query: String,
    pub items: Vec<String>,
    pub matches: Vec<Match>,
    pub selected: usize,
    pub truncated: bool,
    pub root: String,
    pub preview: Option<Preview>,
    /// The path the current preview was built for (skip re-reads on typing).
    pub preview_for: Option<String>,
    pub kind: PickerKind,
    /// Symbols mode: the source line for each item, parallel to `items`.
    pub targets: Vec<usize>,
    /// Grep mode: where each result jumps to, parallel to `items`.
    pub grep_hits: Vec<GrepHit>,
}

impl FilePicker {
    /// Every match names an item; grep hits run parallel to the items.
    pub open spec fn wf(&self) -> bool {
        &&& forall|i: int| 0 <= i < self.matches@.len() ==> (#[trigger] self.matches@[i]).item
            < self.items@.len()
        &&& self.kind == PickerKind::Grep ==> self.grep_hits@.len() == self.items@.len()
    }

    /// The text of a match's item.
    pub fn item(&self, m: &Match) -> (s: &str)
        requires
            m.item < self.items@.len(),
        ensures
            s@ == self.items@[m.item as int]@,
    {
        self.items[m.item].as_str()
    }

    /// Number of items before filtering.
    pub fn total(&self) -> (n: usize)
        ensures
            n == self.items@.len(),
    {
        self.items.len()
    }

    /// The preview pane's title: `path:line` for a grep hit, otherwise the
    /// selected item's file name (the item itself when it has none), or
    /// `preview` when nothing is selected.
    pub fn preview_title(&self) -> (t: String)
        requires
            self.wf(),
            self.kind == PickerKind::Grep ==> forall|i: int|
                0 <= i < self.grep_hits@.len() ==> (#[trigger] self.grep_hits@[i]).line
                    < usize::MAX,
        ensures
            t@ == self.spec_preview_title(),
    {
        proof {
            reveal_strlit("preview");
        }
        if self.selected >= self.matches.len() {
            let mut t = String::new();
            push_str(&mut t, "preview");
            return t;
        }
        let m = &self.matches[self.selected];
        match self.kind {
            PickerKind::Grep => {
                let h = &self.grep_hits[m.item];
                let mut t = String::new();
                push_str(&mut t, h.path.as_str());
                t.push(':');
                push_dec(&mut t, (h.line + 1) as u128);
                t
            },
            _ => {
                let v = chars_of(self.item(m));
                match file_name_of(v.as_slice()) {
                    Some(n) => crate::chars::string_of(n.as_slice()),
                    None => {
                        let mut t = String::new();
                        push_str(&mut t, self.item(m));
                        t
                    },
                }
            },
        }
    }

    /// The title [`FilePicker::preview_title`] gives.
    pub open spec fn spec_preview_title(&self) -> Seq<char> {
        if self.selected >= self.matches@.len() {
            "preview"@
        } else {
            let m = self.matches@[self.selected as int];
            if self.kind == PickerKind::Grep {
                let h = self.grep_hits@[m.item as int];
                h.path@ + seq![':'] + dec((h.line + 1) as nat)
            } else {
                let item = self.items@[m.item as int]@;
                match file_name(item) {
                    Some(n) => n,
                    None => item,
                }
            }
        }
    }
}

/// New paths stay inside the working folder: relative, no `..`, non-empty.
pub fn valid_new_path(rel: &str) -> (b: bool)
    ensures
        b == (rel@.len() > 0 && relative_no_parent(rel@)),
{
    let v = chars_of(rel);
    if v.len() == 0 {
        return false;
    }
    relative_without_parent(v.as_slice())
}

/// The row text of a grep result: `path:line: text`, the line's indent
/// trimmed and the text clipped to [`GREP_ROW_MAX`] chars.
pub open spec fn grep_item(rel: Seq<char>, line_idx: int, line: Seq<char>) -> Seq<char> {
    let t = trim_start(line);
    let shown = if t.len() > GREP_ROW_MAX {
        t.take(GREP_ROW_MAX as int)
    } else {
        t
    };
    grep_prefix(rel, line_idx) + shown
}

/// `path:line: `, the line counted from one.
pub open spec fn grep_prefix(rel: Seq<char>, line_idx: int) -> Seq<char> {
    rel + seq![':'] + dec((line_idx + 1) as nat) + seq![':', ' ']
}

/// A match byte offset of the untrimmed line moved into the trimmed text.
pub open spec fn trimmed_byte(line: Seq<char>, mb: int) -> int {
    let lead = utf8_size(line.take(ws_prefix_len(line) as int));
    let t = trim_start(line);
    let b = if mb - lead > 0 {
        mb - lead
    } else {
        0
    };
    if b < utf8_size(t) {
        b
    } else {
        utf8_size(t) as int
    }
}

/// The display column of a match offset within the row.
pub open spec fn grep_col(rel: Seq<char>, line_idx: int, line: Seq<char>, mb: int) -> int {
    let c = grep_prefix(rel, line_idx).len() + chars_in_bytes(
        trim_start(line),
        trimmed_byte(line, mb),
    );
    let n = grep_item(rel, line_idx, line).len() as int;
    if c < n {
        c
    } else {
        n
    }
}

/// The char columns `c0..c1` of a match within the row.
pub open spec fn col_range(c0: int, c1: int) -> Seq<u32> {
    if c0 < c1 {
        Seq::new((c1 - c0) as nat, |k: int| (c0 + k) as u32)
    } else {
        seq![]
    }
}

/// Formats one grep result row and the char columns of the match within
/// it, for accenting. `mb0`/`mb1` are the match's byte range in `line`;
/// both must fall on char boundaries of the trimmed text.
#[verifier::spinoff_prover]
pub fn grep_row(rel: &str, line_idx: usize, line: &str, mb0: usize, mb1: usize) -> (r: (
    String,
    Vec<u32>,
))
    requires
        line_idx < usize::MAX,
        is_boundary(trim_start(line@), trimmed_byte(line@, mb0 as int)),
        is_boundary(trim_start(line@), trimmed_byte(line@, mb1 as int)),
    ensures
        r.0@ == grep_item(rel@, line_idx as int, line@),
        r.1@ == col_range(
            grep_col(rel@, line_idx as int, line@, mb0 as int),
            grep_col(rel@, line_idx as int, line@, mb1 as int),
        ),
{
    let v = chars_of(line);
    let trimmed = trim_start_chars(v.as_slice());
    proof {
        crate::chars::lemma_ws_prefix(line@);
    }
    let nlead = v.len() - trimmed.len();
    let head = slice_vec(v.as_slice(), 0, nlead);
    assert(head@ == line@.take(ws_prefix_len(line@) as int));
    let lead = utf8_size_of(head.as_slice());
    let tbytes = utf8_size_of(trimmed.as_slice());
    let mut prefix = String::new();
    push_str(&mut prefix, rel);
    prefix.push(':');
    push_dec(&mut prefix, (line_idx + 1) as u128);
    prefix.push(':');
    prefix.push(' ');
    assert(prefix@ =~= grep_prefix(rel@, line_idx as int));
    let pchars = chars_of(prefix.as_str()).len();
    let shown = if trimmed.len() > GREP_ROW_MAX {
        slice_vec(trimmed.as_slice(), 0, GREP_ROW_MAX)
    } else {
        slice_vec(trimmed.as_slice(), 0, trimmed.len())
    };
    assert(trimmed@.subrange(0, trimmed@.len() as int) =~= trimmed@);
    let mut item = prefix;
    push_chars(&mut item, shown.as_slice());
    let item_len = chars_of(item.as_str()).len();
    assert(item@.len() == pchars + shown@.len());
    let b0 = mb0 as u128;
    let b1 = mb1 as u128;
    let t0 = if b0 > lead {
        b0 - lead
    } else {
        0
    };
    let t0 = if t0 < tbytes {
        t0
    } else {
        tbytes
    };
    let t1 = if b1 > lead {
        b1 - lead
    } else {
        0
    };
    let t1 = if t1 < tbytes {
        t1
    } else {
        tbytes
    };
    let k0 = chars_spanning(trimmed.as_slice(), t0);
    let k1 = chars_spanning(trimmed.as_slice(), t1);
    let c0 = if k0 < item_len - pchars {
        pchars + k0
    } else {
        item_len
    };
    let c1 = if k1 < item_len - pchars {
        pchars + k1
    } else {
        item_len
    };
    let mut idx: Vec<u32> = Vec::new();
    let mut x = c0;
    while x < c1
        invariant
            c0 <= x,
            x <= c1 || x == c0,
            idx@ == col_range(c0 as int, x as int),
        decreases c1 - x,
    {
        idx.push(#[verifier::truncate] (x as u32));
        x += 1;
        assert(idx@ =~= col_range(c0 as int, x as int));
    }
    proof {
        if c0 >= c1 {
            assert(idx@ =~= col_range(c0 as int, c1 as int));
        }
    }
    (item, idx)
}


/// What the editor does after a picker key.
pub enum PickerAction {
    Nothing,
    /// The selection moved: rebuild the preview.
    RefreshPreview,
    /// The query changed: filter the items again.
    Refilter,
    /// Close the picker.
    Close,
    /// Close the picker and open a file, in a split when one is given.
    OpenFile { path: String, split: Option<SplitDir> },
    /// Close the picker and go to a line of the current buffer.
    GotoLine(usize),
    /// Close the picker, open a file (in a split when given) and go to a
    /// line and char column in it.
    OpenAt { path: String, split: Option<SplitDir>, line: usize, col: usize },
    /// The typed path may not be created: report it.
    InvalidPath(String),
    /// Close the picker, create the path's folders and open it.
    CreatePath(String),
}

/// The split an open command asks for.
pub open spec fn open_split(cmd: PickerCmd) -> Option<SplitDir> {
    match cmd {
        PickerCmd::OpenVsplit => Some(SplitDir::Vertical),
        PickerCmd::OpenHsplit => Some(SplitDir::Horizontal),
        _ => None,
    }
}

/// Only the query and the selection may change.
pub open spec fn picker_rest(a: FilePicker, b: FilePicker) -> bool {
    &&& b.items == a.items
    &&& b.matches == a.matches
    &&& b.truncated == a.truncated
    &&& b.root == a.root
    &&& b.preview == a.preview
    &&& b.preview_for == a.preview_for
    &&& b.kind == a.kind
    &&& b.targets == a.targets
    &&& b.grep_hits == a.grep_hits
}

/// What a picker command does: moving the selection (clamped to the
/// matches), editing the query, dismissing, opening the selected entry as
/// its kind asks (a file, a line of the buffer, a grep hit's position), or
/// creating the path the trimmed query names.
pub open spec fn command_post(p0: FilePicker, p1: FilePicker, cmd: PickerCmd, a: PickerAction) -> bool {
    let n = p0.matches@.len();
    &&& picker_rest(p0, p1)
    &&& match cmd {
        PickerCmd::Up => p1.query@ == p0.query@ && p1.selected == (if p0.selected >= 1 {
            p0.selected - 1
        } else {
            0
        }) && a is RefreshPreview,
        PickerCmd::Down => p1.query@ == p0.query@ && p1.selected == (if p0.selected + 1 < n {
            p0.selected + 1
        } else if n >= 1 {
            n - 1
        } else {
            0
        }) && a is RefreshPreview,
        PickerCmd::DeleteChar => p1.selected == p0.selected && p1.query@ == (if p0.query@.len()
            > 0 {
            p0.query@.drop_last()
        } else {
            p0.query@
        }) && a is Refilter,
        PickerCmd::ClearQuery => p1.selected == p0.selected && p1.query@.len() == 0 && a is Refilter,
        PickerCmd::Dismiss => p1.selected == p0.selected && p1.query@ == p0.query@ && a is Close,
        PickerCmd::CreatePath => {
            let rel = trim(p0.query@);
            &&& p1.selected == p0.selected
            &&& p1.query@ == p0.query@
            &&& if p0.kind != PickerKind::Files {
                a is Nothing
            } else if rel.len() > 0 && relative_no_parent(rel) {
                (a matches PickerAction::CreatePath(r) && r@ == rel)
            } else {
                (a matches PickerAction::InvalidPath(r) && r@ == rel)
            }
        },
        _ => {
            &&& p1.selected == p0.selected
            &&& p1.query@ == p0.query@
            &&& if p0.selected >= n {
                a is Nothing
            } else {
                let m = p0.matches@[p0.selected as int];
                match p0.kind {
                    PickerKind::Files => (a matches PickerAction::OpenFile { path, split } && path@
                        == p0.items@[m.item as int]@ && split == open_split(cmd)),
                    PickerKind::Symbols => a == PickerAction::GotoLine(p0.targets@[m.item as int]),
                    PickerKind::Grep => {
                        let h = p0.grep_hits@[m.item as int];
                        (a matches PickerAction::OpenAt { path, split, line, col } && path@ == h.path@
                            && split == open_split(cmd) && line == h.line && col == h.col)
                    },
                }
            }
        },
    }
}

fn copy_str(s: &str) -> (c: String)
    ensures
        c@ == s@,
{
    let v = chars_of(s);
    crate::chars::string_of(v.as_slice())
}

impl FilePicker {
    /// Carries out a picker command on the picker's own state and says what
    /// the editor is to do.
    pub fn command(&mut self, cmd: PickerCmd) -> (a: PickerAction)
        requires
            old(self).wf(),
            old(self).kind == PickerKind::Symbols ==> old(self).targets@.len() == old(self).items@.len(),
        ensures
            command_post(*old(self), *final(self), cmd, a),
    {
        let n = self.matches.len();
        match cmd {
            PickerCmd::Up => {
                self.selected = if self.selected >= 1 {
                    self.selected - 1
                } else {
                    0
                };
                PickerAction::RefreshPreview
            },
            PickerCmd::Down => {
                self.selected = if self.selected < n && self.selected + 1 < n {
                    self.selected + 1
                } else if n >= 1 {
                    n - 1
                } else {
                    0
                };
                PickerAction::RefreshPreview
            },
            PickerCmd::DeleteChar => {
                let v = chars_of(self.query.as_str());
                if v.len() > 0 {
                    let w = slice_vec(v.as_slice(), 0, v.len() - 1);
                    assert(w@ =~= v@.drop_last());
                    self.query = crate::chars::string_of(w.as_slice());
                }
                PickerAction::Refilter
            },
            PickerCmd::ClearQuery => {
                self.query = String::new();
                PickerAction::Refilter
            },
            PickerCmd::Dismiss => PickerAction::Close,
            PickerCmd::CreatePath => {
                if self.kind != PickerKind::Files {
                    return PickerAction::Nothing;
                }
                let v = chars_of(self.query.as_str());
                let t = crate::chars::trim_chars(v.as_slice());
                let rel = crate::chars::string_of(t.as_slice());
                if valid_new_path(rel.as_str()) {
                    PickerAction::CreatePath(rel)
                } else {
                    PickerAction::InvalidPath(rel)
                }
            },
            _ => {
                if self.selected >= n {
                    return PickerAction::Nothing;
                }
                let split = match cmd {
                    PickerCmd::OpenVsplit => Some(SplitDir::Vertical),
                    PickerCmd::OpenHsplit => Some(SplitDir::Horizontal),
                    _ => None,
                };
                let item = self.matches[self.selected].item;
                match self.kind {
                    PickerKind::Files => PickerAction::OpenFile {
                        path: copy_str(self.items[item].as_str()),
                        split,
                    },
                    PickerKind::Symbols => PickerAction::GotoLine(self.targets[item]),
                    PickerKind::Grep => {
                        let h = &self.grep_hits[item];
                        PickerAction::OpenAt {
                            path: copy_str(h.path.as_str()),
                            split,
                            line: h.line,
                            col: h.col,
                        }
                    },
                }
            },
        }
    }

    /// A key in the picker: a command key, or a plain char that extends the
    /// query.
    pub fn key(&mut self, key: Key) -> (a: PickerAction)
        requires
            old(self).wf(),
            old(self).kind == PickerKind::Symbols ==> old(self).targets@.len() == old(self).items@.len(),
        ensures
            match spec_picker_token(key) {
                Some(cmd) => command_post(*old(self), *final(self), cmd, a),
                None => match key {
                    Key::Char(c) => picker_rest(*old(self), *final(self)) && final(self).query@
                        == old(self).query@.push(c) && final(self).selected == old(self).selected
                        && a is Refilter,
                    _ => *final(self) == *old(self) && a is Nothing,
                },
            },
    {
        match picker_token(key) {
            Some(cmd) => self.command(cmd),
            None => match key {
                Key::Char(c) => {
                    self.query.push(c);
                    PickerAction::Refilter
                },
                _ => PickerAction::Nothing,
            },
        }
    }
}

} // verus!
