//! What the editor makes of each event the language client reports: which
//! float or menu opens, which message shows, which inlay hints are kept.
//! Events that need the workspace (edits, references, completion) are
//! handed on to the caller unchanged.

use vstd::prelude::*;

use crate::chars::push_str;
use crate::editor::analyzer::{Action, ActionsMenu};
use crate::editor::BufId;
use crate::chars::{dec, push_render};
use crate::lsp::{
    inlay_float, newer_inlay, spec_inlay_float, spec_newer_inlay, CompletionItem, InlayHint, Location,
};

verus! {

/// An event from the language client, its values already parsed.
pub enum LspEvent {
    Hover(Option<String>),
    /// The `gK` answer: the annotated line and the active signature.
    InlayLine(Option<String>, Option<String>),
    /// Inlay hints for a document at a revision; `buffer` is the open
    /// buffer showing it, if any.
    InlayHints { buffer: Option<BufId>, revision: u64, hints: Vec<InlayHint> },
    InlayRefresh,
    Definition(Option<Location>),
    Actions(Vec<Action>),
    /// A macro expansion: its name and text.
    ExpandedMacro(Option<(String, String)>),
    ServerExited(String),
    /// Completion candidates.
    Completion(Vec<CompletionItem>),
    /// New diagnostics for the file at this path.
    DiagnosticsUpdated(String),
    /// A progress label change (shown by the status line).
    Progress(Option<String>),
    References(Vec<Location>),
    /// A resolved code action: whether it carried an edit, and the files
    /// and edits applying it changed (none when nothing applied).
    ActionResolved { has_edit: bool, applied: Option<(usize, usize)> },
    /// A workspace edit the server asked for, applied: files and edits.
    ApplyEdit(Option<(usize, usize)>),
    /// A rename to `name`: the server's refusal, or the files and edits
    /// its edit changed (none when nothing applied).
    Renamed { name: String, outcome: Result<Option<(usize, usize)>, String> },
}

/// What the editor shows or does for an event.
pub enum UiAction {
    Nothing,
    /// An informational message.
    Message(String),
    /// An error message.
    Error(String),
    /// A float with these lines.
    InfoFloat(Vec<String>),
    /// Ask for fresh inlay hints for every buffer on screen.
    RequestInlays,
    JumpTo(Location),
    /// Open the code-action menu on its first entry.
    OpenActions(ActionsMenu),
    /// Open a scratch buffer with a macro's expansion.
    OpenExpansion(String, String),
    /// Rank the candidates and open the completion menu.
    Completion(Vec<CompletionItem>),
    /// Rebuild the diagnostics view of the file at this path.
    RebuildDiagnostics(String),
    /// List the references.
    ShowReferences(Vec<Location>),
}

/// The editor's state the events touch: the inlay hints held per buffer
/// with the revision they are for, and whether the server broke.
pub struct LspView {
    pub inlays: Vec<(BufId, u64, Vec<InlayHint>)>,
    pub lsp_broken: bool,
}

/// The revision of the hints held for `buf`.
pub open spec fn held_revision(inlays: Seq<(BufId, u64, Vec<InlayHint>)>, buf: BufId) -> Option<u64>
    decreases inlays.len(),
{
    if inlays.len() == 0 {
        None
    } else if inlays.last().0 == buf {
        Some(inlays.last().1)
    } else {
        held_revision(inlays.drop_last(), buf)
    }
}

/// The hints held for `buf`.
pub open spec fn held_hints(inlays: Seq<(BufId, u64, Vec<InlayHint>)>, buf: BufId) -> Option<Seq<InlayHint>>
    decreases inlays.len(),
{
    if inlays.len() == 0 {
        None
    } else if inlays.last().0 == buf {
        Some(inlays.last().2@)
    } else {
        held_hints(inlays.drop_last(), buf)
    }
}

/// The lines of a float, as texts.
pub open spec fn texts(v: Seq<String>) -> Seq<Seq<char>> {
    v.map_values(|s: String| s@)
}

/// The message for an event or its absence (`m` the expected text).
pub open spec fn says(a: UiAction, m: Seq<char>) -> bool {
    a matches UiAction::Message(s) && s@ == m
}

/// `applied {edits} edit(s) in {files} file(s)`.
pub open spec fn applied_msg(files: usize, edits: usize) -> Seq<char> {
    "applied "@ + dec(edits as nat) + " edit(s) in "@ + dec(files as nat) + " file(s)"@
}

/// What a rename reports: the server's refusal as an error; else the
/// places changed (with a reminder to write every file when several
/// changed), or that nothing was renamed.
pub open spec fn rename_says(name: Seq<char>, outcome: Result<Option<(usize, usize)>, String>, a: UiAction) -> bool {
    match outcome {
        Err(reason) => a matches UiAction::Error(s) && s@ == "rename to `"@ + name + "`: "@ + reason@,
        Ok(Some((files, edits))) => if files > 1 {
            says(
                a,
                "renamed to `"@ + name + "`: "@ + dec(edits as nat) + " places in "@ + dec(files as nat)
                    + " files \u{2014} :wa writes them all"@,
            )
        } else {
            says(a, "renamed to `"@ + name + "`: "@ + dec(edits as nat) + " place(s)"@)
        },
        Ok(None) => says(a, "rename to `"@ + name + "`: nothing to rename here"@),
    }
}

/// What an event does: hover and `gK` answers open a float (a message
/// when there is nothing to show); inlay hints replace the held ones only
/// when none are held for the buffer or the answer is for a revision at
/// least as new (answers may overtake each other); a refresh asks for
/// fresh hints; a definition is jumped to; code actions open their menu;
/// an expansion opens; a server exit is reported and marks the server
/// broken.
pub open spec fn event_done(v0: LspView, v1: LspView, ev: LspEvent, a: UiAction) -> bool {
    match ev {
        LspEvent::Hover(Some(t)) => v1 == v0 && (a matches UiAction::InfoFloat(l) && texts(l@) == seq![t@]),
        LspEvent::Hover(None) => v1 == v0 && says(a, "hover: no information"@),
        LspEvent::InlayLine(x, s) => {
            let lines = spec_inlay_float(
                match x { Some(t) => Some(t@), None => None },
                match s { Some(t) => Some(t@), None => None },
            );
            &&& v1 == v0
            &&& if lines.len() == 0 {
                says(a, "no type annotations on this line"@)
            } else {
                a matches UiAction::InfoFloat(l) && texts(l@) == lines
            }
        },
        LspEvent::InlayHints { buffer, revision, hints } => {
            &&& a == UiAction::Nothing
            &&& v1.lsp_broken == v0.lsp_broken
            &&& match buffer {
                None => v1 == v0,
                Some(b) => if spec_newer_inlay(held_revision(v0.inlays@, b), revision) {
                    &&& held_revision(v1.inlays@, b) == Some(revision)
                    &&& held_hints(v1.inlays@, b) == Some(hints@)
                    &&& forall|o: BufId|
                        o != b ==> #[trigger] held_revision(v1.inlays@, o) == held_revision(v0.inlays@, o)
                            && held_hints(v1.inlays@, o) == held_hints(v0.inlays@, o)
                } else {
                    v1 == v0
                },
            }
        },
        LspEvent::InlayRefresh => v1 == v0 && a == UiAction::RequestInlays,
        LspEvent::Definition(Some(l)) => v1 == v0 && a == UiAction::JumpTo(l),
        LspEvent::Definition(None) => v1 == v0 && says(a, "definition not found"@),
        LspEvent::Actions(acts) => v1 == v0 && if acts@.len() == 0 {
            says(a, "no code actions here"@)
        } else {
            a == UiAction::OpenActions(ActionsMenu { actions: acts, selected: 0 })
        },
        LspEvent::ExpandedMacro(Some((n, t))) => v1 == v0 && a == UiAction::OpenExpansion(n, t),
        LspEvent::ExpandedMacro(None) => v1 == v0 && says(a, "no macro under cursor"@),
        LspEvent::ServerExited(e) => {
            &&& v1.lsp_broken
            &&& v1.inlays == v0.inlays
            &&& a == UiAction::Error(e)
        },
        LspEvent::Completion(items) => v1 == v0 && a == UiAction::Completion(items),
        LspEvent::DiagnosticsUpdated(p) => v1 == v0 && a == UiAction::RebuildDiagnostics(p),
        LspEvent::Progress(_) => v1 == v0 && a == UiAction::Nothing,
        LspEvent::References(locs) => v1 == v0 && if locs@.len() == 0 {
            says(a, "no references"@)
        } else {
            a == UiAction::ShowReferences(locs)
        },
        LspEvent::ActionResolved { has_edit, applied } => v1 == v0 && if !has_edit {
            says(a, "action has no edit"@)
        } else {
            match applied {
                Some((f, e)) => says(a, applied_msg(f, e)),
                None => says(a, "edit: nothing to apply"@),
            }
        },
        LspEvent::ApplyEdit(applied) => v1 == v0 && match applied {
            Some((f, e)) => says(a, applied_msg(f, e)),
            None => says(a, "edit: nothing to apply"@),
        },
        LspEvent::Renamed { name, outcome } => v1 == v0 && rename_says(name@, outcome, a),
    }
}

/// The message of an applied edit (see [`applied_msg`]).
fn applied_message(files: usize, edits: usize) -> (a: UiAction)
    ensures
        says(a, applied_msg(files, edits)),
{
    let mut s = String::new();
    push_str(&mut s, "applied ");
    push_render(&mut s, edits as u128, 10, 1, false);
    push_str(&mut s, " edit(s) in ");
    push_render(&mut s, files as u128, 10, 1, false);
    push_str(&mut s, " file(s)");
    UiAction::Message(s)
}

/// What a rename reports (see [`rename_says`]).
fn rename_message(name: &str, outcome: Result<Option<(usize, usize)>, String>) -> (a: UiAction)
    ensures
        rename_says(name@, outcome, a),
{
    let mut s = String::new();
    match outcome {
        Err(reason) => {
            push_str(&mut s, "rename to `");
            push_str(&mut s, name);
            push_str(&mut s, "`: ");
            push_str(&mut s, reason.as_str());
            UiAction::Error(s)
        },
        Ok(Some((files, edits))) => {
            push_str(&mut s, "renamed to `");
            push_str(&mut s, name);
            push_str(&mut s, "`: ");
            push_render(&mut s, edits as u128, 10, 1, false);
            if files > 1 {
                push_str(&mut s, " places in ");
                push_render(&mut s, files as u128, 10, 1, false);
                push_str(&mut s, " files \u{2014} :wa writes them all");
            } else {
                push_str(&mut s, " place(s)");
            }
            UiAction::Message(s)
        },
        Ok(None) => {
            push_str(&mut s, "rename to `");
            push_str(&mut s, name);
            push_str(&mut s, "`: nothing to rename here");
            UiAction::Message(s)
        },
    }
}

/// A message.
fn message(m: &str) -> (a: UiAction)
    ensures
        says(a, m@),
{
    let mut s = String::new();
    push_str(&mut s, m);
    UiAction::Message(s)
}

impl LspView {
    /// Handles one event (see [`event_done`]).
    pub fn lsp_event_step(&mut self, ev: LspEvent) -> (a: UiAction)
        ensures
            event_done(*old(self), *final(self), ev, a),
    {
        match ev {
            LspEvent::Hover(Some(t)) => {
                let mut lines: Vec<String> = Vec::new();
                lines.push(t);
                assert(texts(lines@) =~= seq![lines@[0]@]);
                UiAction::InfoFloat(lines)
            },
            LspEvent::Hover(None) => message("hover: no information"),
            LspEvent::InlayLine(x, s) => {
                let xa = match &x {
                    Some(t) => Some(t.as_str()),
                    None => None,
                };
                let sa = match &s {
                    Some(t) => Some(t.as_str()),
                    None => None,
                };
                let lines = inlay_float(xa, sa);
                if lines.len() == 0 {
                    message("no type annotations on this line")
                } else {
                    UiAction::InfoFloat(lines)
                }
            },
            LspEvent::InlayHints { buffer, revision, hints } => {
                if let Some(b) = buffer {
                    let held = self.held(b);
                    if newer_inlay(held, revision) {
                        let ghost v0 = self.inlays@;
                        self.inlays.push((b, revision, hints));
                        assert(self.inlays@.drop_last() =~= v0);
                    }
                }
                UiAction::Nothing
            },
            LspEvent::InlayRefresh => UiAction::RequestInlays,
            LspEvent::Definition(Some(l)) => UiAction::JumpTo(l),
            LspEvent::Definition(None) => message("definition not found"),
            LspEvent::Actions(acts) => {
                if acts.len() == 0 {
                    message("no code actions here")
                } else {
                    UiAction::OpenActions(ActionsMenu { actions: acts, selected: 0 })
                }
            },
            LspEvent::ExpandedMacro(Some((n, t))) => UiAction::OpenExpansion(n, t),
            LspEvent::ExpandedMacro(None) => message("no macro under cursor"),
            LspEvent::ServerExited(e) => {
                self.lsp_broken = true;
                UiAction::Error(e)
            },
            LspEvent::Completion(items) => UiAction::Completion(items),
            LspEvent::DiagnosticsUpdated(p) => UiAction::RebuildDiagnostics(p),
            LspEvent::Progress(_) => UiAction::Nothing,
            LspEvent::References(locs) => {
                if locs.len() == 0 {
                    message("no references")
                } else {
                    UiAction::ShowReferences(locs)
                }
            },
            LspEvent::ActionResolved { has_edit, applied } => {
                if !has_edit {
                    message("action has no edit")
                } else {
                    match applied {
                        Some((f, e)) => applied_message(f, e),
                        None => message("edit: nothing to apply"),
                    }
                }
            },
            LspEvent::ApplyEdit(applied) => match applied {
                Some((f, e)) => applied_message(f, e),
                None => message("edit: nothing to apply"),
            },
            LspEvent::Renamed { name, outcome } => rename_message(name.as_str(), outcome),
        }
    }

    /// The revision of the hints held for `buf` (see [`held_revision`]).
    pub fn held(&self, buf: BufId) -> (r: Option<u64>)
        ensures
            r == held_revision(self.inlays@, buf),
    {
        let mut i: usize = self.inlays.len();
        assert(self.inlays@.take(i as int) =~= self.inlays@);
        while i > 0
            invariant
                i <= self.inlays@.len(),
                held_revision(self.inlays@, buf) == held_revision(self.inlays@.take(i as int), buf),
            decreases i,
        {
            assert(self.inlays@.take(i as int).drop_last() =~= self.inlays@.take(i - 1));
            assert(self.inlays@.take(i as int).last() == self.inlays@[i - 1]);
            if self.inlays[i - 1].0 == buf {
                return Some(self.inlays[i - 1].1);
            }
            i -= 1;
        }
        None
    }
}

} // verus!
