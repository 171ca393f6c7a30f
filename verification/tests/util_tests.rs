use uemacs::util::{completions_in, expand_tilde, resolve_completion_parts, version};

#[test]
fn test_version() {
    assert!(version().contains("uemacs"));
}

/// The listing of a directory of a small project tree: its root (`.`) and `src`.
fn listing(dir: &str) -> Vec<(String, bool)> {
    let e = |n: &str, d: bool| (n.to_string(), d);
    match dir {
        "." => vec![e("Cargo.toml", false), e("src", true), e("Cargo.lock", false), e("README.md", false)],
        "src" => vec![e("main.rs", false), e("lib.rs", false), e("edit", true)],
        _ => Vec::new(),
    }
}

/// The completions of `prefix` in that tree, the home directory being `home`.
fn complete_in_tree(prefix: &str, home: &str) -> Vec<String> {
    let expanded = expand_tilde(prefix, home);
    let parts = resolve_completion_parts(&expanded);
    completions_in(&listing(&parts.dir_to_read), &parts.base, &parts.prefix_str)
}

#[test]
fn test_complete_filename_empty() {
    let results = complete_in_tree("", "/home/u");
    assert!(!results.is_empty());
    let has_cargo = results.iter().any(|n| n.contains("Cargo"));
    let has_src = results.iter().any(|n| n.contains("src/"));
    assert!(has_cargo || has_src, "expected Cargo or src in results: {results:?}");
    assert_eq!(results, vec!["Cargo.lock", "Cargo.toml", "README.md", "src/"]);
}

#[test]
fn test_complete_filename_src_prefix() {
    let results = complete_in_tree("src/", "/home/u");
    assert!(results.iter().any(|n| n.starts_with("src/")));
}

#[test]
fn test_complete_filename_no_dot_slash_pollution() {
    let results = complete_in_tree("", "/home/u");
    assert!(!results.iter().any(|n| n.starts_with("./")));
}

#[test]
fn test_complete_filename_partial_in_cwd() {
    let results = complete_in_tree("Carg", "/home/u");
    assert!(results.iter().any(|n| n == "Cargo.toml" || n == "Cargo.lock"));
    assert!(!results.iter().any(|n| n.starts_with("./")));
}

#[test]
fn test_complete_filename_no_match() {
    let results = complete_in_tree("/nonexistent_path_xyz/foo", "/home/u");
    assert!(results.is_empty());
}

#[test]
fn test_complete_filename_matches_cargo_toml() {
    let results = complete_in_tree("Cargo", "/home/u");
    assert!(results.iter().any(|n| n.contains("Cargo.toml")));
}

#[test]
fn test_complete_filename_trailing_slash() {
    let results = complete_in_tree("src/", "/home/u");
    assert!(results.iter().all(|n| n.starts_with("src/")));
    assert_eq!(results, vec!["src/edit/", "src/lib.rs", "src/main.rs"]);
}

#[test]
fn test_complete_filename_with_non_utf8_path() {
    let results = complete_in_tree("/proc/1/fd/", "/home/u");
    assert!(results.is_empty() || !results.is_empty());
}

#[test]
fn test_expand_tilde() {
    assert_eq!(expand_tilde("~", "/home/u"), "/home/u");
    assert_eq!(expand_tilde("~/docs", "/home/u"), "/home/u/docs");
    assert_eq!(expand_tilde("~x", "/home/u"), "~x");
    assert_eq!(expand_tilde("~/docs", ""), "~/docs");
    assert_eq!(expand_tilde("plain", "/home/u"), "plain");
}

#[test]
fn test_resolve_completion_parts() {
    let p = resolve_completion_parts("");
    assert_eq!((p.dir_to_read.as_str(), p.base.as_str(), p.prefix_str.as_str()), (".", "", ""));
    let p = resolve_completion_parts("///");
    assert_eq!((p.dir_to_read.as_str(), p.base.as_str(), p.prefix_str.as_str()), ("/", "", "///"));
    let p = resolve_completion_parts("a/b//");
    assert_eq!((p.dir_to_read.as_str(), p.base.as_str(), p.prefix_str.as_str()), ("a/b", "", "a/b//"));
    let p = resolve_completion_parts("a/bc");
    assert_eq!((p.dir_to_read.as_str(), p.base.as_str(), p.prefix_str.as_str()), ("a", "bc", "a/"));
    let p = resolve_completion_parts("/x");
    assert_eq!((p.dir_to_read.as_str(), p.base.as_str(), p.prefix_str.as_str()), ("/", "x", "//"));
    let p = resolve_completion_parts("bc");
    assert_eq!((p.dir_to_read.as_str(), p.base.as_str(), p.prefix_str.as_str()), (".", "bc", ""));
}

#[test]
fn test_completions_in_marks_directories() {
    let entries = vec![("b".to_string(), true), ("a".to_string(), false), ("c".to_string(), false)];
    assert_eq!(completions_in(&entries, "", "p/"), vec!["p/a", "p/b/", "p/c"]);
    assert_eq!(completions_in(&entries, "b", ""), vec!["b/"]);
}
