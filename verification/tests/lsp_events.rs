use unei::editor::analyzer::Action;
use unei::editor::lsp_events::{LspEvent, LspView, UiAction};
use unei::lsp::{InlayHint, Location};

fn hint(label: &str) -> InlayHint {
    InlayHint { line: 0, col: 1, label: label.to_string(), kind: Some(1) }
}

fn msg(a: &UiAction) -> Option<&str> {
    match a {
        UiAction::Message(s) => Some(s.as_str()),
        _ => None,
    }
}

#[test]
fn only_the_newest_inlay_revision_is_kept() {
    let mut v = LspView { inlays: Vec::new(), lsp_broken: false };
    v.lsp_event_step(LspEvent::InlayHints { buffer: Some(1), revision: 5, hints: vec![hint(": u8")] });
    assert_eq!(v.held(1), Some(5));
    v.lsp_event_step(LspEvent::InlayHints { buffer: Some(1), revision: 3, hints: vec![hint(": old")] });
    assert_eq!(v.held(1), Some(5));
    assert_eq!(v.inlays.last().unwrap().2[0].label, ": u8");
    v.lsp_event_step(LspEvent::InlayHints { buffer: Some(2), revision: 1, hints: vec![] });
    v.lsp_event_step(LspEvent::InlayHints { buffer: Some(1), revision: 5, hints: vec![hint(": i32")] });
    assert_eq!(v.held(1), Some(5));
    assert_eq!(v.held(2), Some(1));
    assert_eq!(v.held(3), None);
    let n = v.inlays.len();
    v.lsp_event_step(LspEvent::InlayHints { buffer: None, revision: 9, hints: vec![] });
    assert_eq!(v.inlays.len(), n);
}

#[test]
fn answers_open_floats_or_say_there_is_nothing() {
    let mut v = LspView { inlays: Vec::new(), lsp_broken: false };
    let a = v.lsp_event_step(LspEvent::Hover(None));
    assert_eq!(msg(&a), Some("hover: no information"));
    let a = v.lsp_event_step(LspEvent::InlayLine(Some("let x: u8 = 1;".to_string()), Some("fn f(a: u8)".to_string())));
    match a {
        UiAction::InfoFloat(lines) => assert_eq!(lines, vec!["let x: u8 = 1;", "", "\u{2192} fn f(a: u8)"]),
        _ => panic!("expected a float"),
    }
    let a = v.lsp_event_step(LspEvent::InlayLine(None, None));
    assert_eq!(msg(&a), Some("no type annotations on this line"));
    let a = v.lsp_event_step(LspEvent::Definition(None));
    assert_eq!(msg(&a), Some("definition not found"));
    let a = v.lsp_event_step(LspEvent::Definition(Some(Location { path: "/a.rs".to_string(), line: 3, col: 4 })));
    assert!(matches!(a, UiAction::JumpTo(Location { line: 3, col: 4, .. })));
    let a = v.lsp_event_step(LspEvent::Actions(Vec::new()));
    assert_eq!(msg(&a), Some("no code actions here"));
    let a = v.lsp_event_step(LspEvent::Actions(vec![Action { title: "fix".to_string(), raw: "{}".to_string() }]));
    assert!(matches!(a, UiAction::OpenActions(ref m) if m.selected == 0 && m.actions.len() == 1));
    let a = v.lsp_event_step(LspEvent::ExpandedMacro(None));
    assert_eq!(msg(&a), Some("no macro under cursor"));
    assert!(matches!(v.lsp_event_step(LspEvent::InlayRefresh), UiAction::RequestInlays));
    assert!(!v.lsp_broken);
    let a = v.lsp_event_step(LspEvent::ServerExited("rust-analyzer exited".to_string()));
    assert!(matches!(a, UiAction::Error(ref e) if e == "rust-analyzer exited"));
    assert!(v.lsp_broken);
}

#[test]
fn edits_and_renames_report_their_counts() {
    let mut v = LspView { inlays: Vec::new(), lsp_broken: false };
    let a = v.lsp_event_step(LspEvent::ApplyEdit(Some((2, 5))));
    assert_eq!(msg(&a), Some("applied 5 edit(s) in 2 file(s)"));
    let a = v.lsp_event_step(LspEvent::ApplyEdit(None));
    assert_eq!(msg(&a), Some("edit: nothing to apply"));
    let a = v.lsp_event_step(LspEvent::ActionResolved { has_edit: false, applied: None });
    assert_eq!(msg(&a), Some("action has no edit"));
    let a = v.lsp_event_step(LspEvent::Renamed { name: "foo".to_string(), outcome: Ok(Some((3, 12))) });
    assert_eq!(msg(&a), Some("renamed to `foo`: 12 places in 3 files \u{2014} :wa writes them all"));
    let a = v.lsp_event_step(LspEvent::Renamed { name: "foo".to_string(), outcome: Ok(Some((1, 2))) });
    assert_eq!(msg(&a), Some("renamed to `foo`: 2 place(s)"));
    let a = v.lsp_event_step(LspEvent::Renamed { name: "foo".to_string(), outcome: Err("bad name".to_string()) });
    assert!(matches!(a, UiAction::Error(ref e) if e == "rename to `foo`: bad name"));
    let a = v.lsp_event_step(LspEvent::References(Vec::new()));
    assert_eq!(msg(&a), Some("no references"));
    assert!(matches!(v.lsp_event_step(LspEvent::Progress(None)), UiAction::Nothing));
}
