use unei::lsp::{ancestors, project_root, severity_of, strip_snippet, uri, uri_to_path, Severity};
use unei::lsp::{server_request, Notice, Reply};
use unei::lsp::{inlay_float, newer_inlay, progress_label, response_step, RequestKind, ResponseStep};

#[test]
fn strip_snippet_removes_placeholders() {
    assert_eq!(strip_snippet("foo($0)"), "foo()");
    assert_eq!(strip_snippet("push(${1:value})"), "push()");
    assert_eq!(strip_snippet("plain"), "plain");
    assert_eq!(strip_snippet("a${1}b$0c"), "abc");
    assert_eq!(strip_snippet(r"cost \$5"), "cost $5");
}

#[test]
fn strip_snippet_edges() {
    assert_eq!(strip_snippet("a$"), "a$");
    assert_eq!(strip_snippet("x\\"), "x");
    assert_eq!(strip_snippet("${unclosed"), "");
    assert_eq!(strip_snippet("$12ab"), "ab");
    assert_eq!(strip_snippet("$x"), "$x");
}

#[test]
fn severity_codes() {
    assert_eq!(severity_of(None), Severity::Error);
    assert_eq!(severity_of(Some(1)), Severity::Error);
    assert_eq!(severity_of(Some(2)), Severity::Warning);
    assert_eq!(severity_of(Some(3)), Severity::Info);
}

#[test]
fn uris_round_trip() {
    assert_eq!(uri("/a/b.rs"), "file:///a/b.rs");
    assert_eq!(uri_to_path("file:///a/b.rs"), Some("/a/b.rs".to_string()));
    assert_eq!(uri_to_path("http://x"), None);
}

#[test]
fn project_root_prefers_the_outermost_manifest() {
    let dirs = ancestors("/w/member/src/lib.rs");
    assert_eq!(
        dirs,
        vec![
            "/w/member/src".to_string(),
            "/w/member".to_string(),
            "/w".to_string(),
            "/".to_string()
        ]
    );
    assert_eq!(
        project_root(&dirs, &[false, true, true, false]),
        Some("/w".to_string())
    );
    assert_eq!(project_root(&dirs, &[false, false, false, false]), None);
}

#[test]
fn server_requests_are_always_answered() {
    assert_eq!(server_request("workspace/configuration", Some(3)), (Reply::Nulls(3), Notice::Nothing));
    assert_eq!(server_request("workspace/configuration", None), (Reply::Nulls(1), Notice::Nothing));
    assert_eq!(server_request("workspace/inlayHint/refresh", None), (Reply::Null, Notice::InlayRefresh));
    assert_eq!(server_request("workspace/applyEdit", None), (Reply::Applied, Notice::ApplyEdit));
    assert_eq!(server_request("client/registerCapability", None), (Reply::Null, Notice::Nothing));
}

#[test]
fn progress_responses_and_inlay_floats() {
    assert_eq!(progress_label(Some("end"), Some("x"), None), None);
    assert_eq!(progress_label(Some("begin"), Some("indexing"), Some("m")).as_deref(), Some("indexing"));
    assert_eq!(progress_label(None, None, Some("m")).as_deref(), Some("m"));
    assert_eq!(progress_label(None, None, None).as_deref(), Some("working"));
    assert_eq!(response_step(RequestKind::InlayLine, true), ResponseStep::AskSignature);
    assert_eq!(response_step(RequestKind::InlayLine, false), ResponseStep::ReportLineOnly);
    assert_eq!(response_step(RequestKind::Initialize, false), ResponseStep::Initialized);
    assert_eq!(response_step(RequestKind::Hover, true), ResponseStep::Report);
    assert!(newer_inlay(None, 0));
    assert!(newer_inlay(Some(3), 3));
    assert!(!newer_inlay(Some(4), 3));
    assert_eq!(inlay_float(Some("let x: i32"), Some("fn f(a: u8)")), vec!["let x: i32", "", "→ fn f(a: u8)"]);
    assert_eq!(inlay_float(None, Some("s")), vec!["→ s"]);
    assert!(inlay_float(None, None).is_empty());
}
