use opener_rules::pattern::Pattern;

#[test]
fn glob_star_matches_any_run() {
    let p = Pattern::new("*.txt");
    assert!(p.match_path("notes.txt", false));
    assert!(p.match_path(".txt", false));
    assert!(!p.match_path("notes.txt.bak", false));
    assert!(!p.match_path("notes.md", false));
}

#[test]
fn glob_question_matches_one_char() {
    let p = Pattern::new("a?c");
    assert!(p.match_mime("abc"));
    assert!(p.match_mime("axc"));
    assert!(!p.match_mime("ac"));
    assert!(!p.match_mime("abbc"));
}

#[test]
fn glob_empty_pattern_matches_only_empty() {
    let p = Pattern::new("");
    assert!(p.match_mime(""));
    assert!(!p.match_mime("x"));
}

#[test]
fn mime_wildcard_subtype() {
    let p = Pattern::new("text/*");
    assert!(p.match_mime("text/plain"));
    assert!(p.match_mime("text/html"));
    assert!(!p.match_mime("image/png"));
}

#[test]
fn trailing_slash_selects_directories() {
    let p = Pattern::new("*/");
    assert!(p.match_path("some/dir", true));
    assert!(!p.match_path("some/file", false));
    assert!(p.any_dir());
    assert!(!p.any_file());
}

#[test]
fn bare_star_is_catch_all_for_files() {
    let p = Pattern::new("*");
    assert!(p.any_file());
    assert!(!p.any_dir());
    assert!(p.match_path("anything/at/all", false));
    assert!(!p.match_path("a/directory", true));
}
