use unei::launch::{launch_from, resolve};

#[test]
fn no_args_uses_cwd() {
    let l = resolve(&[], &[], "/work".to_string());
    assert_eq!(l.root, "/work");
    assert!(l.files.is_empty() && !l.open_picker);
}

#[test]
fn bare_filename_roots_at_cwd() {
    let l = resolve(&["notes.md".into()], &[false], "/work".to_string());
    assert_eq!(l.root, "/work");
    assert_eq!(l.files, vec!["notes.md".to_string()]);
}

#[test]
fn nonexistent_path_is_a_new_file() {
    let l = resolve(&["brand/new.md".into()], &[false], "/work".to_string());
    assert_eq!(l.root, "brand");
    assert_eq!(l.files, vec!["brand/new.md".to_string()]);
}

#[test]
fn dir_arg_becomes_root_and_opens_picker() {
    let l = resolve(&["/tmp/proj".into()], &[true], "/work".to_string());
    assert_eq!(l.root, "/tmp/proj");
    assert!(l.files.is_empty());
    assert!(l.open_picker);
}

#[test]
fn dir_first_ignores_other_dirs_keeps_files() {
    let args = vec!["/d".to_string(), "/d/sub".to_string(), "/d/a.txt".to_string()];
    let l = resolve(&args, &[true, true, false], "/work".to_string());
    assert_eq!(l.root, "/d");
    assert_eq!(l.files, vec!["/d/a.txt".to_string()]);
    assert!(!l.open_picker);
}

#[test]
fn file_first_ignores_dirs() {
    let args = vec![
        "/d/a.txt".to_string(),
        "/d/sub".to_string(),
        "/d/sub/b.txt".to_string(),
    ];
    let l = resolve(&args, &[false, true, false], "/work".to_string());
    assert_eq!(l.root, "/d");
    assert_eq!(
        l.files,
        vec!["/d/a.txt".to_string(), "/d/sub/b.txt".to_string()]
    );
}

#[test]
fn launch_from_takes_the_given_parent() {
    let l = launch_from(&["x/y".into()], &[false], "/cwd".into(), Some(String::new()));
    assert_eq!(l.root, "/cwd");
    let l = launch_from(&["x/y".into()], &[false], "/cwd".into(), Some("x".into()));
    assert_eq!(l.root, "x");
    let l = launch_from(&["/".into()], &[false], "/cwd".into(), None);
    assert_eq!(l.root, "/cwd");
}
