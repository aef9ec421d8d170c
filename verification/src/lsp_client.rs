//! The language client's bookkeeping: which requests await an answer, the
//! handshake, the progress label, and how each message from the server is
//! answered and reported. Reading and writing the JSON on the wire is the
//! caller's; it hands each message over as an [`LspMessage`].

use vstd::prelude::*;

use crate::chars::{chars_of, eq_str, starts_with};
use crate::lsp::{
    progress_label, response_step, server_request, spec_progress_label, spec_response_step,
    spec_server_request, uri_to_path, Notice, Reply, RequestKind, ResponseStep,
};

verus! {

/// A message from the server, as far as the client's decisions read it.
pub enum LspMessage {
    /// A request (it has an id and a method); `items` counts the items of
    /// a configuration request's `params.items` array when it is one.
    Request { method: String, items: Option<usize> },
    /// A notification: the method, the `params.uri` of diagnostics, and the
    /// `kind`, `title` and `message` of a progress value.
    Notification {
        method: String,
        uri: Option<String>,
        kind: Option<String>,
        title: Option<String>,
        message: Option<String>,
    },
    /// A response, with its id when that is an integer.
    Response { id: Option<i64> },
}

/// What a message tells the editor.
pub enum ClientEvent {
    Nothing,
    /// The server's inlay hints changed.
    InlayRefresh,
    /// The server asks the editor to apply the request's workspace edit.
    ApplyEdit,
    /// New diagnostics for the file at this path.
    Diagnostics(String),
    /// The progress label changed (none: the work ended).
    Progress(Option<String>),
    /// The answer to a request of this kind, and what to do with it.
    Answer(RequestKind, ResponseStep),
}

/// The client's state: whether the handshake completed, the requests
/// awaiting a response by id, the progress label, and whether a `gK`
/// position waits for its signature request.
pub struct ClientState {
    pub initialized: bool,
    pub pending: Vec<(i64, RequestKind)>,
    pub progress: Option<String>,
    pub inlay_pos: bool,
}

/// The view of an optional string.
pub open spec fn opt_view(o: Option<String>) -> Option<Seq<char>> {
    match o {
        Some(s) => Some(s@),
        None => None,
    }
}

/// The index of the first pending request with id `id`, from `i` on.
pub open spec fn find_pending(p: Seq<(i64, RequestKind)>, id: i64, i: int) -> Option<int>
    decreases p.len() - i,
{
    if i < 0 || i >= p.len() {
        None
    } else if p[i].0 == id {
        Some(i)
    } else {
        find_pending(p, id, i + 1)
    }
}

/// No id awaits two responses.
pub open spec fn ids_unique(p: Seq<(i64, RequestKind)>) -> bool {
    forall|i: int, j: int| 0 <= i < j < p.len() ==> p[i].0 != p[j].0
}

proof fn lemma_find_pending(p: Seq<(i64, RequestKind)>, id: i64, i: int)
    requires
        0 <= i,
    ensures
        find_pending(p, id, i) matches Some(k) ==> i <= k < p.len() && p[k].0 == id,
        find_pending(p, id, i) is None ==> forall|k: int| i <= k < p.len() ==> p[k].0 != id,
    decreases p.len() - i,
{
    if i < p.len() && p[i].0 != id {
        lemma_find_pending(p, id, i + 1);
    }
}

/// The event of a server request's notice.
pub open spec fn notice_event(n: Notice) -> ClientEvent {
    match n {
        Notice::Nothing => ClientEvent::Nothing,
        Notice::InlayRefresh => ClientEvent::InlayRefresh,
        Notice::ApplyEdit => ClientEvent::ApplyEdit,
    }
}

/// One message handled: a request is always answered (see
/// [`spec_server_request`]) and leaves the state alone; diagnostics for a
/// `file://` URI report the path; a progress value sets and reports the
/// label (see [`spec_progress_label`]); a response to a pending request
/// retires it and is routed by its kind (see [`spec_response_step`]),
/// completing the handshake for `initialize` and consuming a remembered
/// `gK` position for the line's hints; anything else is ignored.
pub open spec fn handled(c0: ClientState, c1: ClientState, msg: LspMessage, out: (Option<Reply>, ClientEvent)) -> bool {
    match msg {
        LspMessage::Request { method, items } => {
            let (reply, notice) = spec_server_request(method@, items);
            &&& out.0 == Some(reply)
            &&& out.1 == notice_event(notice)
            &&& c1 == c0
        },
        LspMessage::Notification { method, uri, kind, title, message } => {
            &&& out.0 is None
            &&& if method@ == "textDocument/publishDiagnostics"@ {
                &&& c1 == c0
                &&& match uri {
                    Some(u) => if starts_with(u@, "file://"@) {
                        out.1 matches ClientEvent::Diagnostics(p) && p@ == u@.skip(7)
                    } else {
                        out.1 == ClientEvent::Nothing
                    },
                    None => out.1 == ClientEvent::Nothing,
                }
            } else if method@ == "$/progress"@ {
                let label = spec_progress_label(opt_view(kind), opt_view(title), opt_view(message));
                &&& opt_view(c1.progress) == label
                &&& out.1 matches ClientEvent::Progress(l) && opt_view(l) == label
                &&& c1.initialized == c0.initialized
                &&& c1.pending == c0.pending
                &&& c1.inlay_pos == c0.inlay_pos
            } else {
                &&& c1 == c0
                &&& out.1 == ClientEvent::Nothing
            }
        },
        LspMessage::Response { id } => {
            &&& out.0 is None
            &&& match id {
                None => c1 == c0 && out.1 == ClientEvent::Nothing,
                Some(i) => match find_pending(c0.pending@, i, 0) {
                    None => c1 == c0 && out.1 == ClientEvent::Nothing,
                    Some(k) => {
                        let kind = c0.pending@[k].1;
                        &&& c1.pending@ == c0.pending@.remove(k)
                        &&& out.1 == ClientEvent::Answer(kind, spec_response_step(kind, c0.inlay_pos))
                        &&& c1.initialized == (c0.initialized || kind == RequestKind::Initialize)
                        &&& c1.inlay_pos == (c0.inlay_pos && kind != RequestKind::InlayLine)
                        &&& c1.progress == c0.progress
                    },
                },
            }
        },
    }
}

impl ClientState {
    /// A client before the handshake, awaiting nothing.
    pub fn new() -> (c: ClientState)
        ensures
            !c.initialized,
            c.pending@.len() == 0,
            c.progress is None,
            !c.inlay_pos,
    {
        ClientState { initialized: false, pending: Vec::new(), progress: None, inlay_pos: false }
    }

    /// Notes a request sent with `id` (fresh) that awaits its response.
    pub fn expect(&mut self, id: i64, kind: RequestKind)
        requires
            ids_unique(old(self).pending@),
            find_pending(old(self).pending@, id, 0) is None,
        ensures
            final(self).pending@ == old(self).pending@.push((id, kind)),
            ids_unique(final(self).pending@),
            final(self).initialized == old(self).initialized,
            final(self).progress == old(self).progress,
            final(self).inlay_pos == old(self).inlay_pos,
    {
        proof {
            lemma_find_pending(self.pending@, id, 0);
        }
        self.pending.push((id, kind));
    }

    /// The server went away: the handshake and the pending requests are
    /// dropped; reports whether there was anything to lose.
    pub fn server_exited(&mut self) -> (report: bool)
        ensures
            report == (old(self).initialized || old(self).pending@.len() > 0),
            report ==> !final(self).initialized && final(self).pending@.len() == 0,
            !report ==> *final(self) == *old(self),
            final(self).progress == old(self).progress,
            final(self).inlay_pos == old(self).inlay_pos,
    {
        if self.initialized || self.pending.len() > 0 {
            self.initialized = false;
            self.pending = Vec::new();
            true
        } else {
            false
        }
    }

    /// Handles one message from the server (see [`handled`]).
    pub fn handle(&mut self, msg: &LspMessage) -> (out: (Option<Reply>, ClientEvent))
        requires
            ids_unique(old(self).pending@),
        ensures
            handled(*old(self), *final(self), *msg, out),
            ids_unique(final(self).pending@),
    {
        match msg {
            LspMessage::Request { method, items } => {
                let (reply, notice) = server_request(method.as_str(), *items);
                let ev = match notice {
                    Notice::Nothing => ClientEvent::Nothing,
                    Notice::InlayRefresh => ClientEvent::InlayRefresh,
                    Notice::ApplyEdit => ClientEvent::ApplyEdit,
                };
                (Some(reply), ev)
            },
            LspMessage::Notification { method, uri, kind, title, message } => {
                let m = chars_of(method.as_str());
                if eq_str(m.as_slice(), "textDocument/publishDiagnostics") {
                    match uri {
                        Some(u) => match uri_to_path(u.as_str()) {
                            Some(p) => (None, ClientEvent::Diagnostics(p)),
                            None => (None, ClientEvent::Nothing),
                        },
                        None => (None, ClientEvent::Nothing),
                    }
                } else if eq_str(m.as_slice(), "$/progress") {
                    let k = match kind {
                        Some(x) => Some(x.as_str()),
                        None => None,
                    };
                    let t = match title {
                        Some(x) => Some(x.as_str()),
                        None => None,
                    };
                    let g = match message {
                        Some(x) => Some(x.as_str()),
                        None => None,
                    };
                    let label = progress_label(k, t, g);
                    let again = progress_label(k, t, g);
                    self.progress = label;
                    (None, ClientEvent::Progress(again))
                } else {
                    (None, ClientEvent::Nothing)
                }
            },
            LspMessage::Response { id } => {
                let i: i64 = match id {
                    None => {
                        return (None, ClientEvent::Nothing);
                    },
                    Some(i) => *i,
                };
                let mut k: usize = 0;
                while k < self.pending.len()
                    invariant_except_break
                        k <= self.pending@.len(),
                        find_pending(self.pending@, i, k as int) == find_pending(self.pending@, i, 0),
                    ensures
                        k < self.pending@.len() ==> find_pending(self.pending@, i, 0) == Some(k as int),
                        k >= self.pending@.len() ==> find_pending(self.pending@, i, 0) is None,
                    decreases self.pending@.len() - k,
                {
                    if self.pending[k].0 == i {
                        break;
                    }
                    k += 1;
                }
                if k >= self.pending.len() {
                    return (None, ClientEvent::Nothing);
                }
                let ghost p0 = self.pending@;
                let entry = self.pending.remove(k);
                let kind = entry.1;
                proof {
                    assert forall|a: int, b: int| 0 <= a < b < self.pending@.len() implies self.pending@[a].0
                        != self.pending@[b].0 by {
                        let a0: int = if a < k { a } else { a + 1 };
                        let b0: int = if b < k { b } else { b + 1 };
                        assert(self.pending@[a] == p0[a0]);
                        assert(self.pending@[b] == p0[b0]);
                    };
                }
                let step = response_step(kind, self.inlay_pos);
                match kind {
                    RequestKind::Initialize => {
                        self.initialized = true;
                    },
                    RequestKind::InlayLine => {
                        self.inlay_pos = false;
                    },
                    _ => {},
                }
                (None, ClientEvent::Answer(kind, step))
            },
        }
    }
}

} // verus!
