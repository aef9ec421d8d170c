//! A text buffer: its rope, its undo history and what it knows of its file.
//!
//! Every line has a newline terminator when a buffer is made, so the rope
//! ends with '\n' (an empty buffer is one empty line). Edits go through
//! change transactions: only the outermost `begin_change`/`end_change`
//! pair snapshots and commits. Each content gets a state id: a fresh one per
//! edit, restored by undo and redo, so "is this what was saved" is exact
//! across undo branches.

use vstd::prelude::*;

use ropey::Rope;

use crate::editing::rope::{
    rope_char, rope_clone, rope_from_str, rope_insert, rope_len_chars, rope_remove, rope_text,
};

verus! {

/// A position: line and char column, both zero-based.
#[derive(Debug, Clone, Copy, PartialEq, Eq, Structural, Default)]
pub struct Cursor {
    pub line: usize,
    pub col: usize,
}

impl Cursor {
    pub fn new(line: usize, col: usize) -> (c: Self)
        ensures
            c.line == line,
            c.col == col,
    {
        Self { line, col }
    }
}

/// A saved content, with the cursor to restore and the content's state id.
pub struct Snapshot {
    pub rope: Rope,
    pub cursor: Cursor,
    pub state: u64,
}

/// What the buffer knows about its file on disk.
#[derive(Clone, Copy, PartialEq, Eq, Debug, Structural)]
pub enum DiskState {
    /// Not bound to a real file yet: nothing to compare.
    NoBaseline,
    /// Bound to a path that did not exist when opened.
    Absent,
    /// The file as last read or written: (modification time, size).
    Present(u64, u64),
}

/// Why a buffer cannot be written.
#[derive(Clone, Copy, PartialEq, Eq, Debug, Structural)]
pub enum SaveRefusal {
    /// A read-only view: the source on disk must not be clobbered.
    ReadOnly,
    /// The file changed on disk since it was read or written.
    ChangedOnDisk,
    /// The buffer has no file name.
    NoFileName,
}

/// A buffer's file binding, so a failed write to another path can put it
/// back.
pub struct Binding {
    pub path: Option<String>,
    pub disk: DiskState,
}

/// A text buffer.
pub struct Buffer {
    pub rope: Rope,
    pub path: Option<String>,
    /// A view of something not meant to be edited (a binary opened as hex):
    /// mutations are inert and saving is refused.
    pub read_only: bool,
    pub disk: DiskState,
    /// The file changed on disk while this buffer holds unsaved edits.
    pub disk_conflict: bool,
    /// Change counter; see [`BufModel`].
    pub revision: u64,
    pub state: u64,
    pub saved_state: u64,
    pub undo: Vec<Snapshot>,
    pub redo: Vec<Snapshot>,
    pub open_change: Option<u64>,
    pub change_depth: u32,
}

/// A snapshot's mathematical view.
pub struct SnapModel {
    pub text: Seq<char>,
    pub cursor: Cursor,
    pub state: u64,
}

/// The mathematical view of a buffer's editing state.
pub struct BufModel {
    pub text: Seq<char>,
    pub read_only: bool,
    /// Bumps on every change, undo and redo included; never runs backwards.
    pub revision: u64,
    /// The id of the current content.
    pub state: u64,
    /// The id of the content last saved or loaded.
    pub saved_state: u64,
    pub undo: Seq<SnapModel>,
    pub redo: Seq<SnapModel>,
    /// The state when the outermost open transaction started.
    pub open_change: Option<u64>,
    /// Nesting depth of open transactions.
    pub depth: u32,
}

/// Views of a run of snapshots.
pub open spec fn snap_models(v: Seq<Snapshot>) -> Seq<SnapModel> {
    v.map_values(|s: Snapshot| SnapModel { text: rope_text(s.rope), cursor: s.cursor, state: s.state })
}

impl View for Buffer {
    type V = BufModel;

    open spec fn view(&self) -> BufModel {
        BufModel {
            text: rope_text(self.rope),
            read_only: self.read_only,
            revision: self.revision,
            state: self.state,
            saved_state: self.saved_state,
            undo: snap_models(self.undo@),
            redo: snap_models(self.redo@),
            open_change: self.open_change,
            depth: self.change_depth,
        }
    }
}

/// Every state id in use is at most the revision; a transaction is open
/// exactly while the depth is positive.
pub open spec fn model_wf(m: BufModel) -> bool {
    &&& m.state <= m.revision
    &&& m.saved_state <= m.revision
    &&& forall|i: int| 0 <= i < m.undo.len() ==> (#[trigger] m.undo[i]).state <= m.revision
    &&& forall|i: int| 0 <= i < m.redo.len() ==> (#[trigger] m.redo[i]).state <= m.revision
    &&& (m.depth > 0 <==> m.open_change is Some)
    &&& (m.open_change matches Some(s) ==> s <= m.revision)
}

/// A fresh content: a new revision becomes the state, redo is dropped
/// (editing after an undo forks history).
pub open spec fn touched(m: BufModel, text: Seq<char>) -> BufModel {
    BufModel {
        text,
        revision: (m.revision + 1) as u64,
        state: (m.revision + 1) as u64,
        redo: seq![],
        ..m
    }
}

/// Inserting `s` at char index `i`.
pub open spec fn model_insert(m: BufModel, i: int, s: Seq<char>) -> BufModel {
    if m.read_only || s.len() == 0 {
        m
    } else {
        touched(m, m.text.take(i) + s + m.text.skip(i))
    }
}

/// Removing chars `a..b`.
pub open spec fn model_remove(m: BufModel, a: int, b: int) -> BufModel {
    if m.read_only || a >= b {
        m
    } else {
        touched(m, m.text.take(a) + m.text.skip(b))
    }
}

/// Opening a transaction: only the outermost one snapshots.
pub open spec fn model_begin(m: BufModel, cursor: Cursor) -> BufModel {
    if m.read_only {
        m
    } else if m.depth >= 1 {
        BufModel { depth: (m.depth + 1) as u32, ..m }
    } else {
        BufModel {
            depth: 1,
            open_change: Some(m.state),
            undo: m.undo.push(SnapModel { text: m.text, cursor, state: m.state }),
            ..m
        }
    }
}

/// Closing a transaction; the outermost close reports whether the content
/// changed, dropping its snapshot when it did not.
pub open spec fn model_end(m: BufModel) -> (BufModel, bool) {
    if m.depth == 0 {
        (m, false)
    } else if m.depth > 1 {
        (BufModel { depth: (m.depth - 1) as u32, ..m }, false)
    } else {
        match m.open_change {
            Some(s0) => if s0 == m.state {
                (
                    BufModel {
                        depth: 0,
                        open_change: None,
                        undo: if m.undo.len() > 0 {
                            m.undo.drop_last()
                        } else {
                            m.undo
                        },
                        ..m
                    },
                    false,
                )
            } else {
                (BufModel { depth: 0, open_change: None, ..m }, true)
            },
            None => (BufModel { depth: 0, ..m }, false),
        }
    }
}

/// Undoing: the last snapshot's content and state come back, the current
/// one goes onto the redo stack with the given cursor.
pub open spec fn model_undo(m: BufModel, cursor: Cursor) -> (BufModel, Option<Cursor>) {
    if m.undo.len() == 0 {
        (m, None)
    } else {
        let snap = m.undo.last();
        (
            BufModel {
                text: snap.text,
                state: snap.state,
                revision: (m.revision + 1) as u64,
                undo: m.undo.drop_last(),
                redo: m.redo.push(SnapModel { text: m.text, cursor, state: m.state }),
                ..m
            },
            Some(snap.cursor),
        )
    }
}

/// Redoing: the mirror image of undoing.
pub open spec fn model_redo(m: BufModel, cursor: Cursor) -> (BufModel, Option<Cursor>) {
    if m.redo.len() == 0 {
        (m, None)
    } else {
        let snap = m.redo.last();
        (
            BufModel {
                text: snap.text,
                state: snap.state,
                revision: (m.revision + 1) as u64,
                redo: m.redo.drop_last(),
                undo: m.undo.push(SnapModel { text: m.text, cursor, state: m.state }),
                ..m
            },
            Some(snap.cursor),
        )
    }
}

/// The text a buffer made from `text` holds: it, newline-terminated.
pub open spec fn normalized_text(text: Seq<char>) -> Seq<char> {
    if text.len() > 0 && text.last() == '\n' {
        text
    } else {
        text.push('\n')
    }
}

impl Buffer {
    /// A scratch buffer holding `text`, newline-terminated.
    pub fn from_text(text: &str) -> (b: Self)
        ensures
            b@.text == normalized_text(text@),
            !b@.read_only,
            b@.revision == 0 && b@.state == 0 && b@.saved_state == 0,
            b@.undo.len() == 0 && b@.redo.len() == 0,
            b@.depth == 0 && b@.open_change is None,
            b.path is None,
            b.disk == DiskState::NoBaseline,
            !b.disk_conflict,
    {
        let mut rope = rope_from_str(text);
        let n = rope_len_chars(&rope);
        if n == 0 || rope_char(&rope, n - 1) != '\n' {
            rope_insert(&mut rope, n, "\n");
            proof {
                reveal_strlit("\n");
                assert(rope_text(rope) =~= text@.push('\n'));
            }
        }
        Buffer {
            rope,
            path: None,
            read_only: false,
            disk: DiskState::NoBaseline,
            disk_conflict: false,
            revision: 0,
            state: 0,
            saved_state: 0,
            undo: Vec::new(),
            redo: Vec::new(),
            open_change: None,
            change_depth: 0,
        }
    }

    /// Whether the content differs from what was last saved or loaded.
    pub fn is_modified(&self) -> (b: bool)
        ensures
            b == (self@.state != self@.saved_state),
    {
        self.state != self.saved_state
    }

    /// Monotonic change counter (a cache key, never an identity of content).
    pub fn version(&self) -> (v: u64)
        ensures
            v == self@.revision,
    {
        self.revision
    }

    /// The editing state is well-formed (see [`model_wf`]).
    pub open spec fn wf(&self) -> bool {
        model_wf(self@)
    }

    /// Inserts `text` at a char index; inert on a read-only buffer or for
    /// empty text.
    pub fn insert(&mut self, char_idx: usize, text: &str)
        requires
            char_idx <= old(self)@.text.len(),
            old(self)@.revision < u64::MAX,
        ensures
            final(self)@ == model_insert(old(self)@, char_idx as int, text@),
            final(self).path == old(self).path,
            final(self).disk == old(self).disk,
            final(self).disk_conflict == old(self).disk_conflict,
    {
        if self.read_only || text.unicode_len() == 0 {
            return;
        }
        rope_insert(&mut self.rope, char_idx, text);
        self.touch();
    }

    /// Removes the chars `a..b`; inert on a read-only buffer or an empty
    /// range.
    pub fn remove(&mut self, a: usize, b: usize)
        requires
            a < b ==> b <= old(self)@.text.len(),
            old(self)@.revision < u64::MAX,
        ensures
            final(self)@ == model_remove(old(self)@, a as int, b as int),
            final(self).path == old(self).path,
            final(self).disk == old(self).disk,
            final(self).disk_conflict == old(self).disk_conflict,
    {
        if self.read_only || a >= b {
            return;
        }
        rope_remove(&mut self.rope, a, b);
        self.touch();
    }

    fn touch(&mut self)
        requires
            old(self).revision < u64::MAX,
        ensures
            final(self)@ == touched(old(self)@, rope_text(old(self).rope)),
            final(self).rope == old(self).rope,
            final(self).path == old(self).path,
            final(self).read_only == old(self).read_only,
            final(self).disk == old(self).disk,
            final(self).disk_conflict == old(self).disk_conflict,
    {
        self.revision = self.revision + 1;
        self.state = self.revision;
        self.redo = Vec::new();
        assert(snap_models(self.redo@) =~= Seq::<SnapModel>::empty());
    }

    /// Starts an undoable change transaction; only the outermost call
    /// snapshots.
    pub fn begin_change(&mut self, cursor: Cursor)
        requires
            old(self)@.depth < u32::MAX,
        ensures
            final(self)@ == model_begin(old(self)@, cursor),
            final(self).path == old(self).path,
            final(self).disk == old(self).disk,
            final(self).disk_conflict == old(self).disk_conflict,
    {
        if self.read_only {
            return;
        }
        self.change_depth = self.change_depth + 1;
        if self.change_depth > 1 {
            return;
        }
        self.open_change = Some(self.state);
        let snap = Snapshot { rope: rope_clone(&self.rope), cursor, state: self.state };
        let ghost before = self.undo@;
        self.undo.push(snap);
        assert(snap_models(self.undo@) =~= snap_models(before).push(
            SnapModel { text: rope_text(self.rope), cursor, state: self.state },
        ));
    }

    /// Ends one level of transaction; the outermost end returns whether the
    /// buffer changed (dropping the snapshot if not).
    pub fn end_change(&mut self) -> (changed: bool)
        ensures
            (final(self)@, changed) == model_end(old(self)@),
            final(self).path == old(self).path,
            final(self).disk == old(self).disk,
            final(self).disk_conflict == old(self).disk_conflict,
    {
        if self.change_depth == 0 {
            return false;
        }
        self.change_depth = self.change_depth - 1;
        if self.change_depth > 0 {
            return false;
        }
        let oc = self.open_change;
        self.open_change = None;
        match oc {
            Some(s0) => {
                if s0 == self.state {
                    let ghost before = self.undo@;
                    let _ = self.undo.pop();
                    proof {
                        if before.len() > 0 {
                            assert(snap_models(self.undo@) =~= snap_models(before).drop_last());
                        }
                    }
                    false
                } else {
                    true
                }
            },
            None => false,
        }
    }

    /// Undoes the last change: returns the cursor to restore, or none when
    /// there is nothing to undo.
    pub fn undo(&mut self, cursor: Cursor) -> (r: Option<Cursor>)
        requires
            old(self)@.revision < u64::MAX,
        ensures
            (final(self)@, r) == model_undo(old(self)@, cursor),
            final(self).path == old(self).path,
            final(self).disk == old(self).disk,
            final(self).disk_conflict == old(self).disk_conflict,
    {
        if self.undo.len() == 0 {
            return None;
        }
        let ghost before_undo = self.undo@;
        let ghost before_redo = self.redo@;
        let snap = self.undo.pop().unwrap();
        let mut rope = snap.rope;
        std::mem::swap(&mut rope, &mut self.rope);
        self.redo.push(Snapshot { rope, cursor, state: self.state });
        self.state = snap.state;
        self.revision = self.revision + 1;
        assert(snap_models(self.undo@) =~= snap_models(before_undo).drop_last());
        assert(snap_models(self.redo@) =~= snap_models(before_redo).push(
            SnapModel { text: rope_text(rope), cursor, state: old(self).state },
        ));
        Some(snap.cursor)
    }

    /// Redoes the last undone change.
    pub fn redo(&mut self, cursor: Cursor) -> (r: Option<Cursor>)
        requires
            old(self)@.revision < u64::MAX,
        ensures
            (final(self)@, r) == model_redo(old(self)@, cursor),
            final(self).path == old(self).path,
            final(self).disk == old(self).disk,
            final(self).disk_conflict == old(self).disk_conflict,
    {
        if self.redo.len() == 0 {
            return None;
        }
        let ghost before_undo = self.undo@;
        let ghost before_redo = self.redo@;
        let snap = self.redo.pop().unwrap();
        let mut rope = snap.rope;
        std::mem::swap(&mut rope, &mut self.rope);
        self.undo.push(Snapshot { rope, cursor, state: self.state });
        self.state = snap.state;
        self.revision = self.revision + 1;
        assert(snap_models(self.redo@) =~= snap_models(before_redo).drop_last());
        assert(snap_models(self.undo@) =~= snap_models(before_undo).push(
            SnapModel { text: rope_text(rope), cursor, state: old(self).state },
        ));
        Some(snap.cursor)
    }

    /// Declares the current content identical to what is on disk, with the
    /// file's current stamp (none when it has no file).
    pub fn mark_saved(&mut self, stamp: Option<(u64, u64)>)
        ensures
            final(self)@ == (BufModel { saved_state: old(self)@.state, ..old(self)@ }),
            final(self).disk == (match stamp {
                Some((t, n)) => DiskState::Present(t, n),
                None => DiskState::NoBaseline,
            }),
            !final(self).disk_conflict,
            final(self).path == old(self).path,
    {
        self.saved_state = self.state;
        self.disk = match stamp {
            Some((t, n)) => DiskState::Present(t, n),
            None => DiskState::NoBaseline,
        };
        self.disk_conflict = false;
    }

    /// Whether the file on disk differs from what this buffer last read or
    /// wrote, given the file's current stamp: the stamp moved, or a file
    /// absent when opened has appeared. A scratch buffer reports false.
    pub fn disk_changed(&self, now: Option<(u64, u64)>) -> (b: bool)
        ensures
            b == (self.path is Some && match self.disk {
                DiskState::NoBaseline => false,
                DiskState::Absent => now is Some,
                DiskState::Present(t, n) => now is Some && now != Some((t, n)),
            }),
    {
        if self.path.is_none() {
            return false;
        }
        match self.disk {
            DiskState::NoBaseline => false,
            DiskState::Absent => now.is_some(),
            DiskState::Present(t, n) => match now {
                Some((a, b)) => a != t || b != n,
                None => false,
            },
        }
    }

    /// Readies a write: refused for a read-only buffer, for a file changed
    /// on disk (unless forced), or without a file name; otherwise the text
    /// gets its final newline and the path to write is returned. `now` is
    /// the file's current stamp.
    pub fn prepare_save(&mut self, force: bool, now: Option<(u64, u64)>) -> (r: Result<
        String,
        SaveRefusal,
    >)
        requires
            old(self)@.revision < u64::MAX,
        ensures
            old(self).read_only ==> r == Err::<String, SaveRefusal>(SaveRefusal::ReadOnly),
            !old(self).read_only && !force && old(self).disk_changed_spec(now) ==> r == Err::<
                String,
                SaveRefusal,
            >(SaveRefusal::ChangedOnDisk),
            !old(self).read_only && (force || !old(self).disk_changed_spec(now))
                && old(self).path is None ==> r == Err::<String, SaveRefusal>(
                SaveRefusal::NoFileName,
            ),
            r is Err ==> final(self)@ == old(self)@,
            r matches Ok(p) ==> old(self).path == Some(p) && final(self)@ == (if old(self)@.text.len()
                > 0 && old(self)@.text.last() != '\n' {
                touched(old(self)@, old(self)@.text.push('\n'))
            } else {
                old(self)@
            }),
            final(self).path == old(self).path,
            final(self).disk == old(self).disk,
    {
        if self.read_only {
            return Err(SaveRefusal::ReadOnly);
        }
        if !force && self.disk_changed(now) {
            return Err(SaveRefusal::ChangedOnDisk);
        }
        let path = match &self.path {
            Some(p) => p.clone(),
            None => {
                return Err(SaveRefusal::NoFileName);
            },
        };
        let n = rope_len_chars(&self.rope);
        if n > 0 && rope_char(&self.rope, n - 1) != '\n' {
            rope_insert(&mut self.rope, n, "\n");
            proof {
                reveal_strlit("\n");
                assert(rope_text(self.rope) =~= old(self)@.text.push('\n'));
            }
            self.touch();
        }
        Ok(path)
    }

    /// What [`Buffer::disk_changed`] reports.
    pub open spec fn disk_changed_spec(&self, now: Option<(u64, u64)>) -> bool {
        self.path is Some && match self.disk {
            DiskState::NoBaseline => false,
            DiskState::Absent => now is Some,
            DiskState::Present(t, n) => now is Some && now != Some((t, n)),
        }
    }

    /// The current file binding, to restore if a write elsewhere fails.
    pub fn binding(&self) -> (b: Binding)
        ensures
            b.path == self.path,
            b.disk == self.disk,
    {
        Binding { path: self.path.clone(), disk: self.disk }
    }

    /// Rebinds to `path`: no baseline yet.
    pub fn rebind(&mut self, path: String)
        ensures
            final(self)@ == old(self)@,
            final(self).path == Some(path),
            final(self).disk == DiskState::NoBaseline,
            !final(self).disk_conflict,
    {
        self.path = Some(path);
        self.disk = DiskState::NoBaseline;
        self.disk_conflict = false;
    }

    /// Puts back a binding taken with [`Buffer::binding`].
    pub fn restore_binding(&mut self, b: Binding)
        ensures
            final(self)@ == old(self)@,
            final(self).path == b.path,
            final(self).disk == b.disk,
    {
        self.path = b.path;
        self.disk = b.disk;
    }
}

/// Law: undoing then redoing gives back the content, its state id and the
/// redo history, and redo hands back the cursor given to undo; the undo
/// entry returns with the cursor given to redo.
pub proof fn lemma_undo_redo(m: BufModel, c1: Cursor, c2: Cursor)
    requires
        m.undo.len() > 0,
    ensures
        ({
            let (m1, r1) = model_undo(m, c1);
            let (m2, r2) = model_redo(m1, c2);
            &&& r1 == Some(m.undo.last().cursor)
            &&& r2 == Some(c1)
            &&& m2.text == m.text
            &&& m2.state == m.state
            &&& m2.redo == m.redo
            &&& m2.undo == m.undo.drop_last().push(
                SnapModel { text: m.undo.last().text, cursor: c2, state: m.undo.last().state },
            )
            &&& m2.saved_state == m.saved_state
        }),
{
    let (m1, r1) = model_undo(m, c1);
    assert(m1.redo.drop_last() =~= m.redo);
}

/// Law: redoing then undoing gives back the content, its state id and the
/// undo history.
pub proof fn lemma_redo_undo(m: BufModel, c1: Cursor, c2: Cursor)
    requires
        m.redo.len() > 0,
    ensures
        ({
            let (m1, r1) = model_redo(m, c1);
            let (m2, r2) = model_undo(m1, c2);
            &&& r2 == Some(c1)
            &&& m2.text == m.text
            &&& m2.state == m.state
            &&& m2.undo == m.undo
            &&& m2.saved_state == m.saved_state
        }),
{
    let (m1, r1) = model_redo(m, c1);
    assert(m1.undo.drop_last() =~= m.undo);
}

/// Law: an edit on a well-formed, writable buffer leaves it modified with a
/// content id used nowhere in its history, and drops the redo history.
pub proof fn lemma_edit_is_fresh(m: BufModel, t: Seq<char>)
    requires
        model_wf(m),
        !m.read_only,
        m.revision < u64::MAX,
    ensures
        ({
            let m2 = touched(m, t);
            &&& m2.state != m2.saved_state
            &&& forall|i: int| 0 <= i < m2.undo.len() ==> (#[trigger] m2.undo[i]).state != m2.state
            &&& m2.redo.len() == 0
            &&& model_wf(m2)
        }),
{
}

/// Edits inside an open transaction: the content, its state id, the
/// revision and the redo history move on; the history and the transaction
/// stay.
pub open spec fn edited_within(mb: BufModel, m1: BufModel) -> bool {
    &&& m1.undo == mb.undo
    &&& m1.depth == mb.depth
    &&& m1.open_change == mb.open_change
    &&& m1.saved_state == mb.saved_state
    &&& m1.read_only == mb.read_only
    &&& m1.revision >= mb.revision
}

/// Inserting and removing are such edits.
pub proof fn lemma_edits_within(mb: BufModel, m1: BufModel, i: int, t: Seq<char>, a: int, b: int)
    requires
        edited_within(mb, m1),
        m1.revision < u64::MAX,
    ensures
        edited_within(mb, model_insert(m1, i, t)),
        edited_within(mb, model_remove(m1, a, b)),
{
}

/// Law: a change session round-trips. Opening a transaction on a buffer
/// with none open, editing so that the content id moves on, and closing it
/// commits one undo entry; undoing it brings back the content, the
/// modified flag and the cursor the session began with, and moves the
/// version forward; redoing then brings back the edited content and the
/// cursor given to undo.
pub proof fn lemma_change_round_trip(m0: BufModel, c0: Cursor, m1: BufModel, c1: Cursor, c2: Cursor)
    requires
        model_wf(m0),
        !m0.read_only,
        m0.depth == 0,
        edited_within(model_begin(m0, c0), m1),
        m1.state != m0.state,
        m1.revision < u64::MAX - 1,
    ensures
        ({
            let (m2, committed) = model_end(m1);
            let (m3, back) = model_undo(m2, c1);
            let (m4, forth) = model_redo(m3, c2);
            &&& committed
            &&& back == Some(c0)
            &&& m3.text == m0.text
            &&& (m3.state != m3.saved_state) == (m0.state != m0.saved_state)
            &&& m3.revision > m0.revision
            &&& forth == Some(c1)
            &&& m4.text == m1.text
            &&& m4.state == m1.state
        }),
{
    let mb = model_begin(m0, c0);
    assert(mb.open_change == Some(m0.state));
    assert(mb.undo.last() == SnapModel { text: m0.text, cursor: c0, state: m0.state });
}

/// Law: every editing step keeps the state well-formed.
pub proof fn lemma_steps_keep_wf(m: BufModel, c: Cursor, i: int, s: Seq<char>, a: int, b: int)
    requires
        model_wf(m),
        m.revision < u64::MAX,
        m.depth < u32::MAX,
    ensures
        model_wf(model_insert(m, i, s)),
        model_wf(model_remove(m, a, b)),
        model_wf(model_begin(m, c)),
        model_wf(model_end(m).0),
        model_wf(model_undo(m, c).0),
        model_wf(model_redo(m, c).0),
{
    let u = model_undo(m, c).0;
    if m.undo.len() > 0 {
        assert forall|k: int| 0 <= k < u.undo.len() implies (#[trigger] u.undo[k]).state
            <= u.revision by {
            assert(u.undo[k] == m.undo[k]);
        }
        assert forall|k: int| 0 <= k < u.redo.len() implies (#[trigger] u.redo[k]).state
            <= u.revision by {
            if k < m.redo.len() {
                assert(u.redo[k] == m.redo[k]);
            }
        }
        assert(m.undo.last().state <= m.revision);
    }
    let r = model_redo(m, c).0;
    if m.redo.len() > 0 {
        assert forall|k: int| 0 <= k < r.redo.len() implies (#[trigger] r.redo[k]).state
            <= r.revision by {
            assert(r.redo[k] == m.redo[k]);
        }
        assert forall|k: int| 0 <= k < r.undo.len() implies (#[trigger] r.undo[k]).state
            <= r.revision by {
            if k < m.undo.len() {
                assert(r.undo[k] == m.undo[k]);
            }
        }
        assert(m.redo.last().state <= m.revision);
    }
    let bg = model_begin(m, c);
    if !m.read_only && m.depth == 0 {
        assert forall|k: int| 0 <= k < bg.undo.len() implies (#[trigger] bg.undo[k]).state
            <= bg.revision by {
            if k < m.undo.len() {
                assert(bg.undo[k] == m.undo[k]);
            }
        }
    }
    let e = model_end(m).0;
    if m.depth == 1 && m.open_change is Some && m.open_change->0 == m.state && m.undo.len() > 0 {
        assert forall|k: int| 0 <= k < e.undo.len() implies (#[trigger] e.undo[k]).state
            <= e.revision by {
            assert(e.undo[k] == m.undo[k]);
        }
    }
}

/// Law: inner transactions neither snapshot nor commit; closing the
/// outermost one commits exactly when the content's id moved since it
/// opened.
pub proof fn lemma_nested_transactions(m: BufModel, c: Cursor)
    requires
        model_wf(m),
        !m.read_only,
        1 <= m.depth < u32::MAX,
    ensures
        model_begin(m, c).undo == m.undo,
        model_begin(m, c).open_change == m.open_change,
        model_end(model_begin(m, c)) == (m, false),
        m.depth == 1 ==> model_end(m).1 == (m.open_change != Some(m.state)),
{
}

} // verus!
