use oxide::expand::expand_sources;
use oxide::glob::hoist_static_glob_parts;
use oxide::glob::optimize_patterns;
use oxide::glob::GlobEntry;
use oxide::matcher::match_files;
use oxide::matcher::FileKind;
use oxide::matcher::WalkEntry;

fn entry(base: &str, pattern: &str) -> GlobEntry {
    GlobEntry { base: base.to_string(), pattern: pattern.to_string() }
}

fn file(path: &str) -> WalkEntry {
    WalkEntry { path: path.to_string(), kind: FileKind::File }
}

#[test]
fn brace_expansion_yields_one_entry_per_alternative() {
    let expanded = expand_sources(&vec![entry("X", "a/{b,c}.html")]);
    assert_eq!(expanded, vec![entry("X", "a/b.html"), entry("X", "a/c.html")]);
}

#[test]
fn brace_expansion_is_a_cartesian_product() {
    let expanded = expand_sources(&vec![entry("X", "{a,b}/{c,d}")]);
    assert_eq!(
        expanded,
        vec![entry("X", "a/c"), entry("X", "a/d"), entry("X", "b/c"), entry("X", "b/d")]
    );
}

#[test]
fn pattern_without_braces_passes_through() {
    let expanded = expand_sources(&vec![entry("X", "src/**/*.ts")]);
    assert_eq!(expanded, vec![entry("X", "src/**/*.ts")]);
}

#[test]
fn malformed_brace_expression_passes_through() {
    let expanded = expand_sources(&vec![entry("X", "a/{b,c.html")]);
    assert_eq!(expanded, vec![entry("X", "a/{b,c.html")]);
}

#[test]
fn hoisting_moves_the_literal_prefix_into_the_base() {
    let hoisted = hoist_static_glob_parts(&vec![entry("/proj", "src/**/*.ts")]);
    assert_eq!(hoisted, vec![entry("/proj/src", "**/*.ts")]);
}

#[test]
fn hoisting_leaves_a_pattern_without_prefix_alone() {
    let hoisted = hoist_static_glob_parts(&vec![entry("/proj", "**/*.ts"), entry("/proj", "*.ts")]);
    assert_eq!(hoisted, vec![entry("/proj", "**/*.ts"), entry("/proj", "*.ts")]);
}

#[test]
fn hoisting_takes_the_longest_prefix() {
    let hoisted = hoist_static_glob_parts(&vec![entry("/proj", "a/b/c/*.html")]);
    assert_eq!(hoisted, vec![entry("/proj/a/b/c", "*.html")]);
}

#[test]
fn hoisting_selects_the_same_files() {
    let listing = vec![
        file("/proj/src/a.ts"),
        file("/proj/src/deep/b.ts"),
        file("/proj/src/c.js"),
        file("/proj/other/d.ts"),
    ];
    let given = entry("/proj", "src/**/*.ts");
    let hoisted = given.hoist();
    assert_eq!(match_files(&given, &listing), match_files(&hoisted, &listing));
    assert_eq!(
        match_files(&hoisted, &listing),
        Some(vec!["/proj/src/a.ts".to_string(), "/proj/src/deep/b.ts".to_string()])
    );
}

#[test]
fn optimizing_drops_repeated_entries() {
    let optimized = optimize_patterns(&vec![
        entry("/a", "**/*.html"),
        entry("/b", "*.js"),
        entry("/a", "**/*.html"),
    ]);
    assert_eq!(optimized, vec![entry("/a", "**/*.html"), entry("/b", "*.js")]);
}

#[test]
fn malformed_glob_gives_no_selection() {
    let listing = vec![file("/proj/a[.ts")];
    assert_eq!(match_files(&entry("/proj", "a[.ts"), &listing), None);
    assert_eq!(match_files(&entry("/proj", "{a,b"), &listing), None);
}

#[test]
fn well_formed_glob_that_matches_nothing_gives_an_empty_selection() {
    let listing = vec![file("/proj/a.ts")];
    assert_eq!(match_files(&entry("/proj", "*.html"), &listing), Some(vec![]));
    assert_eq!(match_files(&entry("/proj", "*.html"), &vec![]), Some(vec![]));
}

#[test]
fn entries_that_are_no_files_are_passed_over() {
    let listing = vec![
        WalkEntry { path: "/proj/a.ts".to_string(), kind: FileKind::Directory },
        WalkEntry { path: "/proj/b.ts".to_string(), kind: FileKind::Unknown },
        file("/proj/c.ts"),
    ];
    assert_eq!(
        match_files(&entry("/proj", "*.ts"), &listing),
        Some(vec!["/proj/c.ts".to_string()])
    );
}

#[test]
fn pattern_that_opens_no_brace_is_never_rewritten() {
    let expanded = expand_sources(&vec![entry("X", "a\\\\b/*.html"), entry("X", "a,b}c")]);
    assert_eq!(expanded, vec![entry("X", "a\\\\b/*.html"), entry("X", "a,b}c")]);
}

#[test]
fn pattern_with_too_many_braces_is_left_alone_and_gives_no_selection() {
    let pattern = "{a,b}".repeat(33);
    let expanded = expand_sources(&vec![entry("X", &pattern)]);
    assert_eq!(expanded, vec![entry("X", &pattern)]);
    let listing = vec![file(&format!("X/{}", "a".repeat(33)))];
    assert_eq!(match_files(&entry("X", &pattern), &listing), None);
}

#[test]
fn alternation_left_in_a_glob_is_matched_by_the_matcher() {
    let listing = vec![file("X/a.html"), file("X/b.html"), file("X/c.html")];
    assert_eq!(
        match_files(&entry("X", "{a,b}.html"), &listing),
        Some(vec!["X/a.html".to_string(), "X/b.html".to_string()])
    );
}

#[test]
fn expansion_keeps_the_order_of_the_sources() {
    let expanded = expand_sources(&vec![entry("A", "x"), entry("B", "{1,2}"), entry("C", "y")]);
    assert_eq!(
        expanded,
        vec![entry("A", "x"), entry("B", "1"), entry("B", "2"), entry("C", "y")]
    );
}

#[test]
fn hoisting_stops_at_the_first_wildcard() {
    let hoisted = hoist_static_glob_parts(&vec![
        entry("/p", "a/b*/c/d.html"),
        entry("/p", "a/b/"),
        entry("/p", "/a/*.html"),
        entry("/p", "a/index.html"),
    ]);
    assert_eq!(
        hoisted,
        vec![
            entry("/p/a", "b*/c/d.html"),
            entry("/p/a", "b/"),
            entry("/p//a", "*.html"),
            entry("/p/a", "index.html"),
        ]
    );
}
