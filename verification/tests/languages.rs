use unei::config::languages::detect;
use unei::config::theme::theme_index;

#[test]
fn detection_rules() {
    let p = |s: &str| detect(Some(s));
    assert_eq!(p("src/main.rs"), Some("rust"));
    assert_eq!(p("README.md"), Some("markdown"));
    assert_eq!(p("notes.MARKDOWN"), Some("markdown"));
    assert_eq!(p("Cargo.toml"), Some("toml"));
    assert_eq!(p("Cargo.lock"), Some("toml"));
    assert_eq!(p("script.sh"), Some("bash"));
    assert_eq!(p("deploy.yml"), Some("yaml"));
    assert_eq!(p("flake.nix"), Some("nix"));
    // justfiles are found by name (any case) and by the .just extension
    assert_eq!(p("justfile"), Some("just"));
    assert_eq!(p("Justfile"), Some("just"));
    assert_eq!(p(".justfile"), Some("just"));
    assert_eq!(p("build.just"), Some("just"));
    assert_eq!(p("script.lua"), None);
    assert_eq!(p("Makefile"), None);
    assert_eq!(detect(None), None);
}

#[test]
fn prefix_fallback() {
    assert_eq!(theme_index("keyword"), theme_index("keyword.control"));
    assert!(theme_index("totally.unknown").is_none());
    assert!(theme_index("none").is_some());
}

#[test]
fn detection_edge_paths() {
    assert_eq!(detect(Some("dir/.hidden")), None);
    assert_eq!(detect(Some("a/b/")), None);
    assert_eq!(detect(Some("x/y.rs/")), Some("rust"));
    assert_eq!(detect(Some("..")), None);
    assert_eq!(detect(Some("/")), None);
    assert_eq!(detect(Some("weird.")), None);
    assert_eq!(detect(Some("a/./b.PY")), Some("python"));
}

#[test]
fn theme_index_positions() {
    assert_eq!(theme_index("none"), Some(0));
    assert_eq!(theme_index("string.escape"), Some(14));
    assert_eq!(theme_index("string.escape.extra"), Some(14));
    assert_eq!(theme_index("string.regex"), Some(16));
    assert_eq!(theme_index(""), None);
}
