use unei::lsp::{Reply, RequestKind, ResponseStep};
use unei::lsp_client::{ClientEvent, ClientState, LspMessage};

fn note(method: &str) -> LspMessage {
    LspMessage::Notification { method: method.to_string(), uri: None, kind: None, title: None, message: None }
}

#[test]
fn each_server_request_gets_its_reply() {
    let mut c = ClientState::new();
    let (reply, ev) = c.handle(&LspMessage::Request { method: "workspace/configuration".to_string(), items: Some(3) });
    assert_eq!(reply, Some(Reply::Nulls(3)));
    assert!(matches!(ev, ClientEvent::Nothing));
    let (reply, ev) = c.handle(&LspMessage::Request { method: "workspace/inlayHint/refresh".to_string(), items: None });
    assert_eq!(reply, Some(Reply::Null));
    assert!(matches!(ev, ClientEvent::InlayRefresh));
    let (reply, ev) = c.handle(&LspMessage::Request { method: "workspace/applyEdit".to_string(), items: None });
    assert_eq!(reply, Some(Reply::Applied));
    assert!(matches!(ev, ClientEvent::ApplyEdit));
    let (reply, _) = c.handle(&LspMessage::Request { method: "something/else".to_string(), items: None });
    assert_eq!(reply, Some(Reply::Null));
    assert!(!c.initialized);
}

#[test]
fn responses_retire_their_request() {
    let mut c = ClientState::new();
    c.expect(1, RequestKind::Initialize);
    c.expect(2, RequestKind::Hover);
    let (reply, ev) = c.handle(&LspMessage::Response { id: Some(1) });
    assert_eq!(reply, None);
    assert!(matches!(ev, ClientEvent::Answer(RequestKind::Initialize, ResponseStep::Initialized)));
    assert!(c.initialized);
    assert_eq!(c.pending, vec![(2, RequestKind::Hover)]);
    let (_, ev) = c.handle(&LspMessage::Response { id: Some(1) });
    assert!(matches!(ev, ClientEvent::Nothing));
    let (_, ev) = c.handle(&LspMessage::Response { id: None });
    assert!(matches!(ev, ClientEvent::Nothing));
    let (_, ev) = c.handle(&LspMessage::Response { id: Some(2) });
    assert!(matches!(ev, ClientEvent::Answer(RequestKind::Hover, ResponseStep::Report)));
    assert!(c.pending.is_empty());
}

#[test]
fn inlay_line_asks_for_the_signature_once() {
    let mut c = ClientState::new();
    c.inlay_pos = true;
    c.expect(7, RequestKind::InlayLine);
    let (_, ev) = c.handle(&LspMessage::Response { id: Some(7) });
    assert!(matches!(ev, ClientEvent::Answer(RequestKind::InlayLine, ResponseStep::AskSignature)));
    assert!(!c.inlay_pos);
    c.expect(8, RequestKind::InlayLine);
    let (_, ev) = c.handle(&LspMessage::Response { id: Some(8) });
    assert!(matches!(ev, ClientEvent::Answer(RequestKind::InlayLine, ResponseStep::ReportLineOnly)));
}

#[test]
fn progress_and_diagnostics_notifications() {
    let mut c = ClientState::new();
    let msg = LspMessage::Notification {
        method: "$/progress".to_string(),
        uri: None,
        kind: Some("begin".to_string()),
        title: Some("Indexing".to_string()),
        message: None,
    };
    let (reply, ev) = c.handle(&msg);
    assert_eq!(reply, None);
    assert!(matches!(ev, ClientEvent::Progress(Some(ref s)) if s == "Indexing"));
    assert_eq!(c.progress.as_deref(), Some("Indexing"));
    let end = LspMessage::Notification {
        method: "$/progress".to_string(),
        uri: None,
        kind: Some("end".to_string()),
        title: None,
        message: None,
    };
    c.handle(&end);
    assert_eq!(c.progress, None);
    let diags = LspMessage::Notification {
        method: "textDocument/publishDiagnostics".to_string(),
        uri: Some("file:///src/main.rs".to_string()),
        kind: None,
        title: None,
        message: None,
    };
    let (_, ev) = c.handle(&diags);
    assert!(matches!(ev, ClientEvent::Diagnostics(ref p) if p == "/src/main.rs"));
    let (_, ev) = c.handle(&note("window/logMessage"));
    assert!(matches!(ev, ClientEvent::Nothing));
}

#[test]
fn exit_drops_the_handshake_and_pending() {
    let mut c = ClientState::new();
    assert!(!c.server_exited());
    c.expect(1, RequestKind::Initialize);
    c.handle(&LspMessage::Response { id: Some(1) });
    c.expect(2, RequestKind::Completion);
    assert!(c.server_exited());
    assert!(!c.initialized);
    assert!(c.pending.is_empty());
}
