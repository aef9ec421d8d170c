//! The language-server side of the editor: the data it exchanges, and the
//! text rules applied to what the server sends (snippets, severities, file
//! URIs, the project root). Positions are utf-8 byte columns, as negotiated.

use vstd::prelude::*;

use crate::chars::{chars_of, is_ascii_digit, push_str, spec_ascii_digit, starts_with, string_of};
use crate::paths::{parent_of, path_parent};

verus! {

/// Severity subset the editor renders.
#[derive(Debug, Clone, Copy, PartialEq, Eq, Structural)]
pub enum Severity {
    Error,
    Warning,
    Info,
}

/// One diagnostic, positions in utf-8 columns.
#[derive(Debug, Clone)]
pub struct Diagnostic {
    pub line: usize,
    pub col: usize,
    pub end_line: usize,
    pub end_col: usize,
    pub severity: Severity,
    pub message: String,
}

/// A jump target from goto-definition.
#[derive(Debug, Clone)]
pub struct Location {
    pub path: String,
    pub line: usize,
    pub col: usize,
}

/// One inlay hint, position in utf-8 columns; the label flattened from its
/// parts and padded as the server asked.
#[derive(Debug, Clone)]
pub struct InlayHint {
    pub line: usize,
    pub col: usize,
    pub label: String,
    /// Hint kind: 1 = type, 2 = parameter, absent for the rest.
    pub kind: Option<i64>,
}

/// One completion candidate.
#[derive(Debug, Clone)]
pub struct CompletionItem {
    /// Display text in the popup.
    pub label: String,
    /// Plain text inserted on accept (snippet placeholders stripped).
    pub insert_text: String,
    /// Text matched against the typed prefix (label when absent).
    pub filter_text: String,
    /// Server-provided ranking key (label when absent).
    pub sort_text: String,
    /// Type / signature, shown dimmed beside the label.
    pub detail: Option<String>,
    /// Completion item kind (2 = method, 3 = function, 5 = field, …).
    pub kind: Option<i64>,
}

/// The severity of a diagnostic's numeric code (error when absent).
pub open spec fn spec_severity(code: Option<i64>) -> Severity {
    match code {
        None => Severity::Error,
        Some(c) => if c == 1 {
            Severity::Error
        } else if c == 2 {
            Severity::Warning
        } else {
            Severity::Info
        },
    }
}

/// The severity of a diagnostic's numeric code.
pub fn severity_of(code: Option<i64>) -> (s: Severity)
    ensures
        s == spec_severity(code),
{
    match code {
        None => Severity::Error,
        Some(1) => Severity::Error,
        Some(2) => Severity::Warning,
        Some(_) => Severity::Info,
    }
}

/// Length of the run of ASCII digits opening `s`.
pub open spec fn digit_run(s: Seq<char>) -> nat
    decreases s.len(),
{
    if s.len() > 0 && spec_ascii_digit(s[0]) {
        1 + digit_run(s.skip(1))
    } else {
        0
    }
}

/// Index of the first `}` in `s`.
pub open spec fn first_brace(s: Seq<char>) -> Option<nat>
    decreases s.len(),
{
    if s.len() == 0 {
        None
    } else if s[0] == '}' {
        Some(0)
    } else {
        match first_brace(s.skip(1)) {
            Some(k) => Some(k + 1),
            None => None,
        }
    }
}

/// Snippet text without its placeholders: `\x` keeps `x`, `${…}` is
/// dropped through its closing brace, `$` followed by digits is dropped,
/// any other `$` stays.
pub open spec fn spec_strip_snippet(s: Seq<char>) -> Seq<char>
    decreases s.len(),
{
    if s.len() == 0 {
        seq![]
    } else if s[0] == '\\' {
        if s.len() >= 2 {
            seq![s[1]] + spec_strip_snippet(s.skip(2))
        } else {
            seq![]
        }
    } else if s[0] == '$' {
        if s.len() >= 2 && s[1] == '{' {
            match first_brace(s.skip(1)) {
                Some(k) => {
                    proof {
                        lemma_first_brace(s.skip(1));
                    }
                    spec_strip_snippet(s.skip(k + 2int))
                },
                None => seq![],
            }
        } else if s.len() >= 2 && spec_ascii_digit(s[1]) {
            proof {
                lemma_digit_run(s.skip(1));
            }
            spec_strip_snippet(s.skip(1int + digit_run(s.skip(1))))
        } else {
            seq!['$'] + spec_strip_snippet(s.skip(1))
        }
    } else {
        seq![s[0]] + spec_strip_snippet(s.skip(1))
    }
}

pub proof fn lemma_digit_run(s: Seq<char>)
    ensures
        digit_run(s) <= s.len(),
        forall|j: int| 0 <= j < digit_run(s) ==> spec_ascii_digit(#[trigger] s[j]),
        digit_run(s) < s.len() ==> !spec_ascii_digit(s[digit_run(s) as int]),
    decreases s.len(),
{
    if s.len() > 0 && spec_ascii_digit(s[0]) {
        lemma_digit_run(s.skip(1));
        assert forall|j: int| 0 <= j < digit_run(s) implies spec_ascii_digit(#[trigger] s[j]) by {
            if j > 0 {
                assert(s.skip(1)[j - 1] == s[j]);
            }
        }
        if digit_run(s) < s.len() {
            assert(s.skip(1)[digit_run(s.skip(1)) as int] == s[digit_run(s) as int]);
        }
    }
}

pub proof fn lemma_first_brace(s: Seq<char>)
    ensures
        first_brace(s) matches Some(k) ==> k < s.len() && s[k as int] == '}' && forall|j: int|
            0 <= j < k ==> s[j] != '}',
        first_brace(s) is None ==> forall|j: int| 0 <= j < s.len() ==> s[j] != '}',
    decreases s.len(),
{
    if s.len() > 0 && s[0] != '}' {
        lemma_first_brace(s.skip(1));
        assert forall|j: int| 1 <= j < s.len() implies s.skip(1)[j - 1] == s[j] by {}
    }
}

/// Removes snippet placeholders (`$0`, `$1`, `${1:name}`), leaving the
/// literal text around them: `foo($0)` becomes `foo()`.
#[verifier::spinoff_prover]
pub fn strip_snippet(s: &str) -> (out: String)
    ensures
        out@ == spec_strip_snippet(s@),
{
    let v = chars_of(s);
    let n = v.len();
    let mut out = String::new();
    let mut i: usize = 0;
    assert(v@.skip(0) =~= v@);
    assert(out@ + spec_strip_snippet(v@.skip(0)) =~= spec_strip_snippet(s@));
    while i < n
        invariant
            i <= n,
            n == v@.len(),
            v@ == s@,
            out@ + spec_strip_snippet(v@.skip(i as int)) == spec_strip_snippet(s@),
        decreases n - i,
    {
        let ghost rest = v@.skip(i as int);
        let c = v[i];
        if c == '\\' {
            if i + 1 < n {
                out.push(v[i + 1]);
                assert(rest.skip(2) =~= v@.skip(i + 2));
                i += 2;
            } else {
                assert(v@.skip(n as int) =~= Seq::<char>::empty());
                i = n;
            }
        } else if c == '$' {
            if i + 1 < n && v[i + 1] == '{' {
                proof {
                    lemma_first_brace(rest.skip(1));
                }
                let mut j = i + 1;
                while j < n && v[j] != '}'
                    invariant
                        i + 1 <= j <= n,
                        n == v@.len(),
                        rest == v@.skip(i as int),
                        forall|q: int| i + 1 <= q < j ==> v@[q] != '}',
                    decreases n - j,
                {
                    j += 1;
                }
                if j < n {
                    proof {
                        assert(rest.skip(1)[j - i - 1] == v@[j as int]);
                        assert forall|q: int| 0 <= q < j - i - 1 implies rest.skip(1)[q] != '}' by {
                            assert(rest.skip(1)[q] == v@[i + 1 + q]);
                        }
                        let k = first_brace(rest.skip(1)).unwrap();
                        if k < j - i - 1 {
                            assert(rest.skip(1)[k as int] == v@[i + 1 + k]);
                        }
                        assert(k == j - i - 1);
                        assert(rest.skip(k + 2int) =~= v@.skip(j + 1));
                    }
                    i = j + 1;
                } else {
                    proof {
                        if first_brace(rest.skip(1)) is Some {
                            let k = first_brace(rest.skip(1)).unwrap();
                            assert(rest.skip(1)[k as int] == v@[i + 1 + k]);
                        }
                        assert(v@.skip(n as int) =~= Seq::<char>::empty());
                    }
                    i = n;
                }
            } else if i + 1 < n && is_ascii_digit(v[i + 1]) {
                proof {
                    lemma_digit_run(rest.skip(1));
                }
                let mut j = i + 1;
                while j < n && is_ascii_digit(v[j])
                    invariant
                        i + 1 <= j <= n,
                        n == v@.len(),
                        rest == v@.skip(i as int),
                        forall|q: int| i + 1 <= q < j ==> spec_ascii_digit(v@[q]),
                    decreases n - j,
                {
                    j += 1;
                }
                proof {
                    let r1 = rest.skip(1);
                    let d = digit_run(r1);
                    assert forall|q: int| 0 <= q < j - i - 1 implies spec_ascii_digit(r1[q]) by {
                        assert(r1[q] == v@[i + 1 + q]);
                    }
                    if d < j - i - 1 {
                        assert(r1[d as int] == v@[i + 1 + d]);
                    }
                    if d > j - i - 1 {
                        assert(r1[j - i - 1] == v@[j as int]);
                    }
                    assert(d == j - i - 1);
                    assert(rest.skip(1int + d) =~= v@.skip(j as int));
                }
                i = j;
            } else {
                out.push('$');
                assert(rest.skip(1) =~= v@.skip(i + 1));
                i += 1;
            }
        } else {
            out.push(c);
            assert(rest.skip(1) =~= v@.skip(i + 1));
            i += 1;
        }
        assert(out@ + spec_strip_snippet(v@.skip(i as int)) =~= spec_strip_snippet(s@));
    }
    assert(v@.skip(n as int) =~= Seq::<char>::empty());
    assert(out@ =~= spec_strip_snippet(s@));
    out
}

/// The `file://` URI of a path.
pub fn uri(path: &str) -> (u: String)
    ensures
        u@ == "file://"@ + path@,
{
    let mut u = String::new();
    push_str(&mut u, "file://");
    push_str(&mut u, path);
    u
}

/// The path of a `file://` URI.
pub fn uri_to_path(uri: &str) -> (p: Option<String>)
    ensures
        p is Some <==> starts_with(uri@, "file://"@),
        p matches Some(q) ==> q@ == uri@.skip(7),
{
    proof {
        reveal_strlit("file://");
    }
    let v = chars_of(uri);
    let is_file = crate::chars::starts_with_at(v.as_slice(), 0, "file://");
    assert(v@.skip(0) =~= v@);
    if is_file {
        let rest = crate::chars::slice_vec(v.as_slice(), 7, v.len());
        assert(rest@ =~= uri@.skip(7));
        Some(string_of(rest.as_slice()))
    } else {
        None
    }
}

/// The index of the last entry whose flag is set.
pub open spec fn last_flagged(flags: Seq<bool>) -> Option<int>
    decreases flags.len(),
{
    if flags.len() == 0 {
        None
    } else if flags.last() {
        Some(flags.len() - 1)
    } else {
        last_flagged(flags.drop_last())
    }
}

/// The cargo project root among a file's enclosing directories, nearest
/// first: the outermost one holding a manifest wins (a workspace root over
/// its members). `has_manifest[i]` says whether `dirs[i]` holds one.
pub fn project_root(dirs: &[String], has_manifest: &[bool]) -> (r: Option<String>)
    requires
        has_manifest@.len() == dirs@.len(),
    ensures
        r is None <==> last_flagged(has_manifest@) is None,
        r matches Some(d) ==> last_flagged(has_manifest@) matches Some(i) && d@ == dirs@[i]@,
{
    let mut k = dirs.len();
    assert(has_manifest@.take(k as int) =~= has_manifest@);
    while k > 0
        invariant
            k <= dirs@.len(),
            has_manifest@.len() == dirs@.len(),
            last_flagged(has_manifest@) == last_flagged(has_manifest@.take(k as int)),
        decreases k,
    {
        if has_manifest[k - 1] {
            return Some(dirs[k - 1].clone());
        }
        assert(has_manifest@.take(k as int).drop_last() =~= has_manifest@.take(k - 1));
        k -= 1;
    }
    None
}

/// The directories enclosing a file, nearest first: its parent, the
/// parent's parent, and so on up to the root.
pub open spec fn enclosing_dirs(p: Seq<char>, fuel: nat) -> Seq<Seq<char>>
    decreases fuel,
{
    if fuel == 0 {
        seq![]
    } else {
        match path_parent(p) {
            None => seq![],
            Some(q) => seq![q] + enclosing_dirs(q, (fuel - 1) as nat),
        }
    }
}

/// The directories enclosing `file`, nearest first, for [`project_root`].
pub fn ancestors(file: &str) -> (v: Vec<String>)
    ensures
        v@.map_values(|s: String| s@) == enclosing_dirs(file@, file@.len() + 1),
{
    let mut v: Vec<String> = Vec::new();
    let mut cur: String = String::new();
    push_str(&mut cur, file);
    let ghost total: nat = file@.len() + 1;
    let ghost mut fuel: nat = total;
    loop
        invariant
            cur@.len() + 1 <= fuel,
            fuel <= total,
            v@.map_values(|s: String| s@) + enclosing_dirs(cur@, fuel) == enclosing_dirs(
                file@,
                total,
            ),
        ensures
            v@.map_values(|s: String| s@) == enclosing_dirs(file@, total),
        decreases cur@.len(),
    {
        match parent_of(cur.as_str()) {
            None => {
                assert(enclosing_dirs(cur@, fuel) =~= Seq::<Seq<char>>::empty());
                assert(v@.map_values(|s: String| s@) =~= enclosing_dirs(file@, total));
                break;
            },
            Some(q) => {
                let ghost old_cur = cur@;
                v.push(q.clone());
                cur = q;
                proof {
                    assert(enclosing_dirs(old_cur, fuel) == seq![cur@] + enclosing_dirs(
                        cur@,
                        (fuel - 1) as nat,
                    ));
                    fuel = (fuel - 1) as nat;
                }
                assert(v@.map_values(|s: String| s@) + enclosing_dirs(cur@, fuel) =~= enclosing_dirs(
                    file@,
                    total,
                ));
            },
        }
    }
    v
}


/// How the client answers a request from the server.
#[derive(Debug, Clone, Copy, PartialEq, Eq, Structural)]
pub enum Reply {
    /// `null`.
    Null,
    /// An array of `null`s, one per configuration item asked for.
    Nulls(usize),
    /// `{ "applied": true }`.
    Applied,
}

/// What a message from the server tells the editor.
#[derive(Debug, Clone, Copy, PartialEq, Eq, Structural)]
pub enum Notice {
    Nothing,
    /// The server's inlay hints changed: documents showing them ask again.
    InlayRefresh,
    /// The server asks the editor to apply the request's workspace edit.
    ApplyEdit,
}

/// The answer to a server request: every request is answered (the server
/// stalls otherwise); a configuration request gets one `null` per item
/// (one when the items are not an array).
pub open spec fn spec_server_request(method: Seq<char>, items: Option<usize>) -> (Reply, Notice) {
    if method == "workspace/configuration"@ {
        (
            Reply::Nulls(
                match items {
                    Some(n) => n,
                    None => 1,
                },
            ),
            Notice::Nothing,
        )
    } else if method == "workspace/inlayHint/refresh"@ {
        (Reply::Null, Notice::InlayRefresh)
    } else if method == "workspace/applyEdit"@ {
        (Reply::Applied, Notice::ApplyEdit)
    } else {
        (Reply::Null, Notice::Nothing)
    }
}

/// Decides the answer to a server request.
pub fn server_request(method: &str, items: Option<usize>) -> (r: (Reply, Notice))
    ensures
        r == spec_server_request(method@, items),
{
    let m = chars_of(method);
    if crate::chars::eq_str(m.as_slice(), "workspace/configuration") {
        (
            Reply::Nulls(
                match items {
                    Some(n) => n,
                    None => 1,
                },
            ),
            Notice::Nothing,
        )
    } else if crate::chars::eq_str(m.as_slice(), "workspace/inlayHint/refresh") {
        (Reply::Null, Notice::InlayRefresh)
    } else if crate::chars::eq_str(m.as_slice(), "workspace/applyEdit") {
        (Reply::Applied, Notice::ApplyEdit)
    } else {
        (Reply::Null, Notice::Nothing)
    }
}

/// The statusline's progress label from a `$/progress` value: none once
/// the work ends, else its title, its message, or `working`.
pub open spec fn spec_progress_label(kind: Option<Seq<char>>, title: Option<Seq<char>>, message: Option<Seq<char>>) -> Option<Seq<char>> {
    if kind == Some("end"@) {
        None
    } else {
        Some(
            match title {
                Some(t) => t,
                None => match message {
                    Some(m) => m,
                    None => "working"@,
                },
            },
        )
    }
}

/// The progress label (see [`spec_progress_label`]).
pub fn progress_label(kind: Option<&str>, title: Option<&str>, message: Option<&str>) -> (r: Option<String>)
    ensures
        r matches Some(x) ==> spec_progress_label(
            match kind { Some(k) => Some(k@), None => None },
            match title { Some(t) => Some(t@), None => None },
            match message { Some(m) => Some(m@), None => None },
        ) == Some(x@),
        r is None <==> spec_progress_label(
            match kind { Some(k) => Some(k@), None => None },
            match title { Some(t) => Some(t@), None => None },
            match message { Some(m) => Some(m@), None => None },
        ) is None,
{
    if let Some(k) = kind {
        let kv = chars_of(k);
        if crate::chars::eq_str(kv.as_slice(), "end") {
            return None;
        }
    }
    let mut out = String::new();
    match title {
        Some(t) => push_str(&mut out, t),
        None => match message {
            Some(m) => push_str(&mut out, m),
            None => {
                push_str(&mut out, "working");
            },
        },
    }
    Some(out)
}

/// What a client request was, for routing its response.
#[derive(Debug, Clone, Copy, PartialEq, Eq, Structural)]
pub enum RequestKind {
    Initialize,
    Hover,
    Definition,
    Actions,
    Completion,
    ResolveAction,
    ExpandMacro,
    /// The first half of `gK`: the line's inlay hints.
    InlayLine,
    /// The second half of `gK`: the signature at the position.
    SignatureFor,
    InlayDoc,
    Rename,
}

/// What the client does with a response to a request of a kind.
#[derive(Debug, Clone, Copy, PartialEq, Eq, Structural)]
pub enum ResponseStep {
    /// Mark the server initialized, send `initialized`, flush the queued
    /// messages.
    Initialized,
    /// Parse the result and hand it to the editor as the kind's event.
    Report,
    /// Ask for the signature at the remembered `gK` position next.
    AskSignature,
    /// Report the annotated line without a signature (no position kept).
    ReportLineOnly,
}

/// Routing a response: `gK` asks for the signature when a position is
/// remembered; initialization completes the handshake; the rest report.
pub open spec fn spec_response_step(kind: RequestKind, has_inlay_pos: bool) -> ResponseStep {
    match kind {
        RequestKind::Initialize => ResponseStep::Initialized,
        RequestKind::InlayLine => if has_inlay_pos {
            ResponseStep::AskSignature
        } else {
            ResponseStep::ReportLineOnly
        },
        _ => ResponseStep::Report,
    }
}

/// Routes a response (see [`spec_response_step`]).
pub fn response_step(kind: RequestKind, has_inlay_pos: bool) -> (r: ResponseStep)
    ensures
        r == spec_response_step(kind, has_inlay_pos),
{
    match kind {
        RequestKind::Initialize => ResponseStep::Initialized,
        RequestKind::InlayLine => if has_inlay_pos {
            ResponseStep::AskSignature
        } else {
            ResponseStep::ReportLineOnly
        },
        _ => ResponseStep::Report,
    }
}

/// Inlay answers may overtake each other: one is kept only when no hints are
/// held for the buffer or it is for a revision at least as new.
pub open spec fn spec_newer_inlay(held: Option<u64>, revision: u64) -> bool {
    match held {
        None => true,
        Some(r) => revision >= r,
    }
}

/// Whether to keep an inlay answer (see [`spec_newer_inlay`]).
pub fn newer_inlay(held: Option<u64>, revision: u64) -> (b: bool)
    ensures
        b == spec_newer_inlay(held, revision),
{
    match held {
        None => true,
        Some(r) => revision >= r,
    }
}

/// The `gK` float: the annotated line, then (after a blank line when both
/// are there) the signature behind an arrow; none when neither came.
pub open spec fn spec_inlay_float(annotated: Option<Seq<char>>, signature: Option<Seq<char>>) -> Seq<Seq<char>> {
    let a: Seq<Seq<char>> = match annotated {
        Some(x) => seq![x],
        None => seq![],
    };
    match signature {
        None => a,
        Some(sig) => (if a.len() > 0 {
            a.push(seq![])
        } else {
            a
        }).push("\u{2192} "@ + sig),
    }
}

/// The `gK` float's lines (see [`spec_inlay_float`]); an empty result asks
/// for the "no type annotations" message instead.
pub fn inlay_float(annotated: Option<&str>, signature: Option<&str>) -> (r: Vec<String>)
    ensures
        r@.map_values(|s: String| s@) == spec_inlay_float(
            match annotated { Some(x) => Some(x@), None => None },
            match signature { Some(x) => Some(x@), None => None },
        ),
{
    let mut lines: Vec<String> = Vec::new();
    if let Some(a) = annotated {
        let mut s = String::new();
        push_str(&mut s, a);
        lines.push(s);
    }
    if let Some(sig) = signature {
        if lines.len() > 0 {
            lines.push(String::new());
        }
        let mut s = String::new();
        push_str(&mut s, "\u{2192} ");
        push_str(&mut s, sig);
        lines.push(s);
    }
    proof {
        let ann = match annotated { Some(x) => Some(x@), None => None };
        let sg = match signature { Some(x) => Some(x@), None => None };
        assert(lines@.map_values(|s: String| s@) =~= spec_inlay_float(ann, sg));
    }
    lines
}

} // verus!
