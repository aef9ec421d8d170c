use unei::editor::file_picker::{grep_row, valid_new_path};
use unei::editor::file_picker::{FilePicker, GrepHit, Match};
use unei::editing::commands::{PickerCmd, SplitDir};
use unei::editor::file_picker::{PickerAction, PickerKind};

#[test]
fn grep_row_formats_and_locates_the_match() {
    let (item, idx) = grep_row("src/main.rs", 9, "    let x = 42;", 12, 14);
    assert_eq!(item, "src/main.rs:10: let x = 42;");
    assert_eq!(idx, vec![24, 25]);
}

#[test]
fn grep_row_clips_long_lines_without_panic() {
    let long = format!("{}needle", "x".repeat(400));
    let (item, _) = grep_row("f", 0, &long, 400, 406);
    assert!(item.chars().count() <= "f:1: ".chars().count() + 200);
}

#[test]
fn new_path_validation() {
    assert!(valid_new_path("notes.md"));
    assert!(valid_new_path("docs/deep/notes.md"));
    assert!(!valid_new_path(""));
    assert!(!valid_new_path("/etc/passwd"));
    assert!(!valid_new_path("../outside.txt"));
    assert!(!valid_new_path("docs/../../outside.txt"));
}

#[test]
fn grep_row_counts_chars_not_bytes() {
    let (item, idx) = grep_row("é", 0, "\tçx", 3, 4);
    assert_eq!(item, "é:1: çx");
    assert_eq!(idx, vec![6]);
}

#[test]
fn new_path_may_start_at_the_current_dir() {
    assert!(valid_new_path("./notes.md"));
    assert!(valid_new_path("docs/./notes.md"));
    assert!(!valid_new_path("./../notes.md"));
}

fn picker(kind: unei::editor::file_picker::PickerKind, query: &str) -> unei::editor::file_picker::FilePicker {
    FilePicker {
        query: query.to_string(),
        items: vec!["a.rs".to_string(), "src/b.rs".to_string()],
        matches: vec![
            Match { item: 1, score: 9, indices: vec![] },
            Match { item: 0, score: 3, indices: vec![] },
        ],
        selected: 0,
        truncated: false,
        root: ".".to_string(),
        preview: None,
        preview_for: None,
        kind,
        targets: vec![10, 20],
        grep_hits: vec![
            GrepHit { path: "a.rs".to_string(), line: 4, col: 2 },
            GrepHit { path: "src/b.rs".to_string(), line: 7, col: 0 },
        ],
    }
}

#[test]
fn picker_commands_move_edit_and_open() {
    let mut p = picker(PickerKind::Files, "ab");
    assert!(matches!(p.command(PickerCmd::Up), PickerAction::RefreshPreview));
    assert_eq!(p.selected, 0);
    p.command(PickerCmd::Down);
    p.command(PickerCmd::Down);
    assert_eq!(p.selected, 1);
    assert!(matches!(p.command(PickerCmd::DeleteChar), PickerAction::Refilter));
    assert_eq!(p.query, "a");
    match p.command(PickerCmd::OpenVsplit) {
        PickerAction::OpenFile { path, split } => {
            assert_eq!(path, "a.rs");
            assert_eq!(split, Some(SplitDir::Vertical));
        }
        _ => panic!("opens the selected file"),
    }
    let mut p = picker(PickerKind::Symbols, "");
    assert!(matches!(p.command(PickerCmd::Open), PickerAction::GotoLine(20)));
    let mut p = picker(PickerKind::Grep, "");
    match p.command(PickerCmd::OpenHsplit) {
        PickerAction::OpenAt { path, split, line, col } => {
            assert_eq!((path.as_str(), split, line, col), ("src/b.rs", Some(SplitDir::Horizontal), 7, 0));
        }
        _ => panic!("opens the hit"),
    }
    let mut p = picker(PickerKind::Files, "  docs/new.md ");
    assert!(matches!(p.command(PickerCmd::CreatePath), PickerAction::CreatePath(ref s) if s == "docs/new.md"));
    let mut p = picker(PickerKind::Files, "../x");
    assert!(matches!(p.command(PickerCmd::CreatePath), PickerAction::InvalidPath(ref s) if s == "../x"));
    let mut p = picker(PickerKind::Symbols, "x");
    assert!(matches!(p.command(PickerCmd::CreatePath), PickerAction::Nothing));
    let mut p = picker(PickerKind::Files, "x");
    assert!(matches!(p.key(unei::config::keymap::Key::Char('y')), PickerAction::Refilter));
    assert_eq!(p.query, "xy");
    p.command(PickerCmd::ClearQuery);
    assert_eq!(p.query, "");
    assert!(matches!(p.command(PickerCmd::Dismiss), PickerAction::Close));
}
