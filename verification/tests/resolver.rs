use opener_rules::open::Open;
use opener_rules::opener::Opener;
use opener_rules::pattern::Pattern;
use opener_rules::rule::OpenRule;

fn op(run: &str, block: bool) -> Opener {
    Opener::new(run.to_string(), format!("runs {}", run), block)
}

fn group(name: &str, runs: &[(&str, bool)]) -> (String, Vec<Opener>) {
    (name.to_string(), runs.iter().map(|(r, b)| op(r, *b)).collect())
}

fn mime_rule(pat: &str, uses: &[&str]) -> OpenRule {
    OpenRule::new(
        Some(Pattern::new(pat)),
        None,
        uses.iter().map(|u| u.to_string()).collect(),
    )
}

fn name_rule(pat: &str, uses: &[&str]) -> OpenRule {
    OpenRule::new(
        None,
        Some(Pattern::new(pat)),
        uses.iter().map(|u| u.to_string()).collect(),
    )
}

fn runs(v: &[Opener]) -> Vec<String> {
    v.iter().map(|o| o.run.clone()).collect()
}

#[test]
fn first_matching_rule_with_openers_wins() {
    let open = Open::new(
        vec![group("edit", &[("vi", true)]), group("view", &[("cat", false)])],
        vec![mime_rule("text/*", &["edit"]), mime_rule("*", &["view"])],
        vec![],
        vec![],
    );
    let got = open.openers("notes.txt", "text/plain").expect("first rule must win");
    assert_eq!(runs(&got), vec!["vi"]);
}

#[test]
fn fallthrough_on_empty_resolution() {
    // Rule A matches *.txt but its group has zero valid openers; rule B is a
    // catch-all with a non-empty group. A .txt path must get B's openers.
    let open = Open::new(
        vec![group("empty", &[("", false)]), group("all", &[("xdg-open", false)])],
        vec![name_rule("*.txt", &["empty"]), name_rule("*", &["all"])],
        vec![],
        vec![],
    );
    let got = open.openers("notes.txt", "text/plain").expect("rule B must win");
    assert_eq!(runs(&got), vec!["xdg-open"]);
}

#[test]
fn fallthrough_on_unknown_group_name() {
    let open = Open::new(
        vec![group("all", &[("see", false)])],
        vec![name_rule("*.txt", &["no-such-group"]), name_rule("*", &["all"])],
        vec![],
        vec![],
    );
    let got = open.openers("notes.txt", "text/plain").expect("second rule must win");
    assert_eq!(runs(&got), vec!["see"]);
}

#[test]
fn no_rule_wins_yields_none() {
    let open = Open::new(
        vec![group("edit", &[("vi", true)])],
        vec![mime_rule("text/*", &["edit"])],
        vec![],
        vec![],
    );
    assert!(open.openers("movie.mp4", "video/mp4").is_none());
}

#[test]
fn append_catch_all_file_rule_overrides_base() {
    // Base holds a catch-all-for-any-regular-file rule R; append_rules holds a
    // different one, R'. The merged table must not contain R, and R' must sit
    // after the filtered base, at the very end.
    let base = vec![mime_rule("text/*", &["edit"]), name_rule("*", &["r"])];
    let append = vec![name_rule("*", &["r2"])];
    let open = Open::new(
        vec![
            group("edit", &[("vi", true)]),
            group("r", &[("old-default", false)]),
            group("r2", &[("new-default", false)]),
        ],
        base,
        vec![],
        append,
    );
    assert_eq!(open.rules.len(), 2);
    assert_eq!(open.rules[1].use_, vec!["r2".to_string()]);
    let got = open.openers("some.bin", "application/octet-stream").unwrap();
    assert_eq!(runs(&got), vec!["new-default"]);
}

#[test]
fn append_catch_all_dir_rule_overrides_base_dirs_only() {
    let base = vec![name_rule("*/", &["d"]), name_rule("*", &["f"])];
    let append = vec![name_rule("*/", &["d2"])];
    let open = Open::new(
        vec![
            group("d", &[("old-dir", false)]),
            group("f", &[("file-opener", false)]),
            group("d2", &[("new-dir", false)]),
        ],
        base,
        vec![],
        append,
    );
    // The file catch-all stays; only the directory catch-all was replaced.
    assert_eq!(open.rules.len(), 2);
    let dir = open.openers("some/dir", "inode/directory").unwrap();
    assert_eq!(runs(&dir), vec!["new-dir"]);
    let file = open.openers("some/file", "text/plain").unwrap();
    assert_eq!(runs(&file), vec!["file-opener"]);
}

#[test]
fn prepend_layer_is_never_filtered() {
    // Only the base layer loses its catch-alls; a catch-all in prepend stays
    // even when append supplies one of the same kind.
    let open = Open::new(
        vec![group("p", &[("from-prepend", false)]), group("a", &[("from-append", false)])],
        vec![],
        vec![name_rule("*", &["p"])],
        vec![name_rule("*", &["a"])],
    );
    assert_eq!(open.rules.len(), 2);
    let got = open.openers("anything", "application/octet-stream").unwrap();
    assert_eq!(runs(&got), vec!["from-prepend"]);
}

#[test]
fn prepend_rules_come_first() {
    let open = Open::new(
        vec![group("a", &[("first", false)]), group("b", &[("second", false)])],
        vec![mime_rule("*", &["b"])],
        vec![mime_rule("text/*", &["a"])],
        vec![],
    );
    let got = open.openers("x", "text/plain").unwrap();
    assert_eq!(runs(&got), vec!["first"]);
}

#[test]
fn directory_sentinel_drives_path_matching() {
    let open = Open::new(
        vec![group("dirs", &[("browse", false)])],
        vec![name_rule("*/", &["dirs"])],
        vec![],
        vec![],
    );
    assert!(open.openers("some/dir", "inode/directory").is_some());
    assert!(open.openers("some/dir", "text/plain").is_none());
}

#[test]
fn common_openers_intersects_in_first_seen_order() {
    // Resolved sets {A, B, C} and {B, C, D} must intersect to {B, C}.
    let open = Open::new(
        vec![
            group("g1", &[("A", false), ("B", false), ("C", false)]),
            group("g2", &[("B", false), ("C", false), ("D", false)]),
        ],
        vec![mime_rule("text/*", &["g1"]), mime_rule("image/*", &["g2"])],
        vec![],
        vec![],
    );
    let targets = vec![
        ("a.txt".to_string(), "text/plain".to_string()),
        ("b.png".to_string(), "image/png".to_string()),
    ];
    let got = open.common_openers(&targets);
    assert_eq!(runs(&got), vec!["B", "C"]);
}

#[test]
fn common_openers_ignores_targets_without_resolution() {
    // A target whose lookup is none is excluded from the intersection, not
    // treated as "no common openers".
    let open = Open::new(
        vec![group("g", &[("A", false), ("B", false)])],
        vec![mime_rule("text/*", &["g"])],
        vec![],
        vec![],
    );
    let targets = vec![
        ("mystery.bin".to_string(), "application/octet-stream".to_string()),
        ("a.txt".to_string(), "text/plain".to_string()),
    ];
    let got = open.common_openers(&targets);
    assert_eq!(runs(&got), vec!["A", "B"]);
}

#[test]
fn common_openers_empty_when_nothing_shared() {
    let open = Open::new(
        vec![group("g1", &[("A", false)]), group("g2", &[("B", false)])],
        vec![mime_rule("text/*", &["g1"]), mime_rule("image/*", &["g2"])],
        vec![],
        vec![],
    );
    let targets = vec![
        ("a.txt".to_string(), "text/plain".to_string()),
        ("b.png".to_string(), "image/png".to_string()),
    ];
    assert!(open.common_openers(&targets).is_empty());
}

#[test]
fn common_openers_no_targets_is_empty() {
    let open = Open::new(
        vec![group("g", &[("A", false)])],
        vec![mime_rule("*", &["g"])],
        vec![],
        vec![],
    );
    assert!(open.common_openers(&Vec::new()).is_empty());
}

#[test]
fn block_opener_returns_first_blocking() {
    let open = Open::new(
        vec![group("g", &[("pager", false), ("editor", true), ("shell", true)])],
        vec![mime_rule("*", &["g"])],
        vec![],
        vec![],
    );
    let got = open.block_opener("a.txt", "text/plain").expect("editor blocks");
    assert_eq!(got.run, "editor");
    assert!(got.block);
}

#[test]
fn block_opener_none_without_blocking_opener() {
    let open = Open::new(
        vec![group("g", &[("pager", false)])],
        vec![mime_rule("*", &["g"])],
        vec![],
        vec![],
    );
    assert!(open.block_opener("a.txt", "text/plain").is_none());
}

#[test]
fn block_opener_none_when_no_rule_matches() {
    let open = Open::new(
        vec![group("g", &[("editor", true)])],
        vec![mime_rule("text/*", &["g"])],
        vec![],
        vec![],
    );
    assert!(open.block_opener("b.png", "image/png").is_none());
}

#[test]
fn duplicate_opener_kept_once_at_first_position() {
    // The same definition listed twice in one group resolves to one entry,
    // at its first position.
    let open = Open::new(
        vec![(
            "g".to_string(),
            vec![op("A", false), op("B", false), op("A", false)],
        )],
        vec![mime_rule("*", &["g"])],
        vec![],
        vec![],
    );
    let got = open.openers("x", "text/plain").unwrap();
    assert_eq!(runs(&got), vec!["A", "B"]);
}

#[test]
fn duplicate_across_referenced_groups_kept_once() {
    // The same definition reached via two referenced groups resolves once,
    // at the position of its first occurrence.
    let open = Open::new(
        vec![
            group("g1", &[("A", false), ("B", false)]),
            group("g2", &[("A", false), ("C", false)]),
        ],
        vec![mime_rule("*", &["g1", "g2"])],
        vec![],
        vec![],
    );
    let got = open.openers("x", "text/plain").unwrap();
    assert_eq!(runs(&got), vec!["A", "B", "C"]);
}

#[test]
fn invalid_definitions_are_dropped_silently() {
    // An opener with an empty invocation template fails validation and
    // contributes nothing; the group stays present but empty.
    let open = Open::new(
        vec![group("g", &[("", true), ("ok", false)])],
        vec![mime_rule("*", &["g"])],
        vec![],
        vec![],
    );
    let got = open.openers("x", "text/plain").unwrap();
    assert_eq!(runs(&got), vec!["ok"]);
}

#[test]
fn resolve_flattens_in_reference_order() {
    let open = Open::new(
        vec![group("g2", &[("late", false)]), group("g1", &[("early", false)])],
        vec![],
        vec![],
        vec![],
    );
    let got = open.resolve(&vec!["g1".to_string(), "g2".to_string()]);
    assert_eq!(runs(&got), vec!["early", "late"]);
}
