use oxide::content::ChangedContent;
use oxide::detect::DetectSources;
use oxide::glob::GlobEntry;
use oxide::matcher::match_files;
use oxide::matcher::FileKind;
use oxide::matcher::WalkEntry;
use oxide::scanner::default_ignored_extensions;
use oxide::scanner::Scanner;
use oxide::sources::join_path;
use oxide::sources::partition_sources;

fn entry(base: &str, pattern: &str) -> GlobEntry {
    GlobEntry { base: base.to_string(), pattern: pattern.to_string() }
}

fn file(path: &str) -> WalkEntry {
    WalkEntry { path: path.to_string(), kind: FileKind::File }
}

fn strings(items: &[&str]) -> Vec<String> {
    items.iter().map(|item| item.to_string()).collect()
}

fn inline(text: &str) -> ChangedContent {
    ChangedContent { file: None, content: Some(text.to_string()) }
}

fn project() -> Scanner {
    let mut scanner = Scanner::new(Some(vec![entry(".", "**/*")]));
    let is_dir = vec![false];
    let listings = vec![vec![file("./a.html"), file("./b.js")]];
    scanner.prepare(&is_dir, &listings);
    scanner
}

fn project_contents() -> Vec<Option<Vec<u8>>> {
    vec![
        Some(b"class=\"p-4 text-sm\"".to_vec()),
        Some(b"const x = \"hidden md:flex\"".to_vec()),
    ]
}

#[test]
fn scans_a_project_end_to_end() {
    let mut scanner = Scanner::new(Some(vec![entry(".", "**/*")]));
    assert!(!scanner.is_ready());
    assert_eq!(scanner.get_files(), None);
    assert_eq!(scanner.probes(), strings(&["."]));
    let is_dir = vec![false];
    assert_eq!(scanner.roots(&is_dir), strings(&["."]));
    let listings = vec![vec![file("./a.html"), file("./b.js")]];
    scanner.prepare(&is_dir, &listings);
    assert!(scanner.is_ready());
    assert_eq!(scanner.get_files(), Some(strings(&["./a.html", "./b.js"])));
    assert_eq!(
        scanner.get_globs(),
        Some(vec![entry(".", "**/*.html"), entry(".", "**/*.js")])
    );
    let changed = scanner.changed_files(&vec![10, 20]).unwrap();
    assert_eq!(changed.len(), 2);
    assert_eq!(changed[0].file, Some("./a.html".to_string()));
    assert_eq!(changed[1].file, Some("./b.js".to_string()));
    let candidates = scanner.scan(&changed, &project_contents()).unwrap();
    assert_eq!(
        candidates,
        strings(&["class", "const", "flex", "hidden", "md:flex", "p-4", "text-sm", "x"])
    );
    for wanted in ["flex", "hidden", "md:flex", "p-4", "text-sm"] {
        assert!(candidates.contains(&wanted.to_string()));
    }
}

#[test]
fn second_scan_without_changes_reads_nothing() {
    let mut scanner = project();
    let times = vec![10, 20];
    let changed = scanner.changed_files(&times).unwrap();
    let first = scanner.scan(&changed, &project_contents()).unwrap();
    let changed = scanner.changed_files(&times).unwrap();
    assert!(changed.is_empty());
    let second = scanner.scan(&changed, &vec![]).unwrap();
    assert_eq!(first, second);
}

#[test]
fn touched_file_is_read_again_and_adds_nothing() {
    let mut scanner = project();
    let changed = scanner.changed_files(&vec![10, 20]).unwrap();
    let first = scanner.scan(&changed, &project_contents()).unwrap();
    let changed = scanner.changed_files(&vec![10, 21]).unwrap();
    assert_eq!(changed.len(), 1);
    assert_eq!(changed[0].file, Some("./b.js".to_string()));
    let loaded = vec![Some(b"const x = \"hidden md:flex\"".to_vec())];
    let second = scanner.scan(&changed, &loaded).unwrap();
    assert_eq!(first, second);
}

#[test]
fn candidates_are_never_removed() {
    let mut scanner = project();
    let changed = scanner.changed_files(&vec![10, 20]).unwrap();
    scanner.scan(&changed, &project_contents()).unwrap();
    let changed = scanner.changed_files(&vec![11, 20]).unwrap();
    let loaded = vec![Some(b"class=\"m-1\"".to_vec())];
    let all = scanner.scan(&changed, &loaded).unwrap();
    assert_eq!(
        all,
        strings(&["class", "const", "flex", "hidden", "m-1", "md:flex", "p-4", "text-sm", "x"])
    );
}

#[test]
fn files_without_a_time_are_passed_over() {
    let mut scanner = project();
    let changed = scanner.changed_files(&vec![10]).unwrap();
    assert_eq!(changed.len(), 1);
    assert_eq!(changed[0].file, Some("./a.html".to_string()));
    let changed = scanner.changed_files(&vec![10, 20]).unwrap();
    assert_eq!(changed.len(), 1);
    assert_eq!(changed[0].file, Some("./b.js".to_string()));
}

#[test]
fn scan_content_returns_only_what_is_new() {
    let mut scanner = Scanner::new(None);
    let first = scanner.scan_content(&vec![inline("p-4 flex p-4")], &vec![None]).unwrap();
    assert_eq!(first, strings(&["p-4", "flex"]));
    let second = scanner.scan_content(&vec![inline("flex m-2"), inline("p-4 a-1 m-2")], &vec![]).unwrap();
    assert_eq!(second, strings(&["m-2", "a-1"]));
    let third = scanner.scan_content(&vec![inline("flex m-2")], &vec![]).unwrap();
    assert_eq!(third, Vec::<String>::new());
    assert_eq!(scanner.scan(&vec![], &vec![]).unwrap(), strings(&["a-1", "flex", "m-2", "p-4"]));
}

#[test]
fn new_candidates_are_disjoint_from_the_known_and_complete_them() {
    let mut scanner = Scanner::new(None);
    scanner.scan_content(&vec![inline("a b c")], &vec![]).unwrap();
    let before = scanner.scan(&vec![], &vec![]).unwrap();
    let fresh = scanner.scan_content(&vec![inline("c d md:flex a")], &vec![]).unwrap();
    assert_eq!(fresh, strings(&["d", "md:flex", "flex"]));
    for text in &fresh {
        assert!(!before.contains(text));
    }
    let after = scanner.scan(&vec![], &vec![]).unwrap();
    let mut union: Vec<String> = before.iter().chain(fresh.iter()).cloned().collect();
    union.sort();
    assert_eq!(after, union);
}

#[test]
fn scan_content_reads_files_through_the_host() {
    let mut scanner = Scanner::new(Some(vec![]));
    let batch = vec![
        ChangedContent { file: Some("a.svelte".to_string()), content: None },
        ChangedContent { file: Some("gone.html".to_string()), content: None },
    ];
    let loaded = vec![Some(b"<p class:underline={on}>".to_vec()), None];
    assert_eq!(scanner.scan_content(&batch, &loaded).unwrap(), strings(&["underline"]));
}

#[test]
fn positions_do_not_touch_the_candidates() {
    let mut scanner = Scanner::new(None);
    let items = scanner.get_candidates_with_positions(&inline("flex  p-4 flex"), &None).unwrap();
    assert_eq!(
        items,
        vec![("flex".to_string(), 0), ("p-4".to_string(), 6), ("flex".to_string(), 10)]
    );
    assert_eq!(scanner.scan(&vec![], &vec![]).unwrap(), Vec::<String>::new());
    let nothing = ChangedContent { file: Some("gone.html".to_string()), content: None };
    assert_eq!(scanner.get_candidates_with_positions(&nothing, &None).unwrap(), vec![]);
}

#[test]
fn operations_wait_for_the_host_while_sources_are_unresolved() {
    let mut scanner = Scanner::new(Some(vec![entry("/proj", "src/*.html")]));
    assert_eq!(scanner.get_files(), None);
    assert_eq!(scanner.get_globs(), None);
    assert_eq!(scanner.scan(&vec![inline("flex")], &vec![]), None);
    assert_eq!(scanner.scan_content(&vec![inline("flex")], &vec![]), None);
    assert_eq!(scanner.get_candidates_with_positions(&inline("flex"), &None), None);
    assert!(scanner.changed_files(&vec![]).is_none());
    assert!(!scanner.is_ready());
    scanner.prepare(&vec![false], &vec![vec![]]);
    assert_eq!(scanner.scan(&vec![], &vec![]).unwrap(), Vec::<String>::new());
}

#[test]
fn a_scanner_without_sources_needs_no_host() {
    let mut scanner = Scanner::new(None);
    assert!(scanner.probes().is_empty());
    assert!(scanner.roots(&vec![]).is_empty());
    assert_eq!(scanner.get_files(), Some(vec![]));
    assert!(scanner.is_ready());
    assert_eq!(scanner.get_globs(), Some(vec![]));
}

#[test]
fn resolution_is_frozen_after_the_first_prepare() {
    let mut scanner = project();
    scanner.prepare(&vec![false], &vec![vec![file("./new.html")]]);
    assert_eq!(scanner.get_files(), Some(strings(&["./a.html", "./b.js"])));
    assert!(scanner.probes().is_empty());
    assert!(scanner.roots(&vec![false]).is_empty());
}

#[test]
fn explicit_globs_are_hoisted_and_matched() {
    let mut scanner = Scanner::new(Some(vec![
        entry("/proj", "src/{a,b}/*.html"),
        entry("/proj", "public"),
    ]));
    assert_eq!(
        scanner.probes(),
        strings(&["/proj/src/a/*.html", "/proj/src/b/*.html", "/proj/public"])
    );
    let is_dir = vec![false, false, true];
    assert_eq!(scanner.roots(&is_dir), strings(&["/proj/public", "/proj/src/a", "/proj/src/b"]));
    let listings = vec![
        vec![file("/proj/public/index.html"), file("/proj/public/logo.png")],
        vec![file("/proj/src/a/x.html"), file("/proj/src/a/x.js")],
        vec![
            WalkEntry { path: "/proj/src/b/dir.html".to_string(), kind: FileKind::Directory },
            file("/proj/src/b/y.html"),
        ],
    ];
    scanner.prepare(&is_dir, &listings);
    assert_eq!(
        scanner.get_files(),
        Some(strings(&["/proj/public/index.html", "/proj/src/a/x.html", "/proj/src/b/y.html"]))
    );
    assert_eq!(
        scanner.get_globs(),
        Some(vec![
            entry("/proj/public", "**/*.html"),
            entry("/proj/src/a", "*.html"),
            entry("/proj/src/b", "*.html"),
        ])
    );
}

#[test]
fn missing_listings_count_as_empty() {
    let mut scanner = Scanner::new(Some(vec![entry("/proj", "**/*"), entry("/proj", "*.html")]));
    scanner.prepare(&vec![], &vec![]);
    assert_eq!(scanner.get_files(), Some(vec![]));
    assert_eq!(scanner.get_globs(), Some(vec![entry("/proj", "*.html")]));
}

#[test]
fn sources_are_parted_by_pattern_and_probe() {
    let entries = vec![
        entry("/p", "src/**/*"),
        entry("/p", "lib"),
        entry("/p", "*.html"),
        entry("/p", "gone/**/*"),
        entry("/p", "**/*"),
    ];
    let probes: Vec<String> = entries.iter().map(|e| e.probe_path()).collect();
    assert_eq!(probes, strings(&["/p/src", "/p/lib", "/p/*.html", "/p/gone", "/p"]));
    let (auto, explicit) = partition_sources(&entries, &vec![true, true, false, false, false]);
    assert_eq!(auto, vec![entry("/p", "src/**/*"), entry("/p", "lib"), entry("/p", "**/*")]);
    assert_eq!(explicit, vec![entry("/p", "*.html"), entry("/p", "gone/**/*")]);
    assert_eq!(auto[0].detection_root(), "/p/src");
    assert_eq!(auto[1].detection_root(), "/p/lib");
    assert_eq!(auto[2].detection_root(), "/p");
    assert!(entry("/p", "**/*").is_promoted(false));
    assert!(!entry("/p", "src/**/*").is_promoted(false));
    assert!(!entry("/p", "a**/*").is_promoted(false));
    assert!(entry("/p", "src/**/*").is_promoted(true));
}

#[test]
fn paths_are_joined_with_one_slash() {
    assert_eq!(join_path("/a", "b"), "/a/b");
    assert_eq!(join_path("/a/", "b"), "/a/b");
    assert_eq!(join_path("/a", "/b"), "/b");
    assert_eq!(join_path("/a", ""), "/a");
    assert_eq!(join_path("", "b"), "b");
}

#[test]
fn detection_keeps_text_files_and_describes_them() {
    let detector = DetectSources::new("/proj".to_string(), default_ignored_extensions());
    let listing = vec![
        file("/proj/index.html"),
        file("/proj/logo.png"),
        file("/proj/src/app.js"),
        WalkEntry { path: "/proj/src".to_string(), kind: FileKind::Directory },
        WalkEntry { path: "/proj/odd.html".to_string(), kind: FileKind::Unknown },
        file("/proj/src/other.html"),
        file("/proj/Makefile"),
        file("/proj/.env"),
        file("/proj/v1.2/notes"),
    ];
    let (files, globs) = detector.detect(&listing);
    assert_eq!(
        files,
        strings(&[
            "/proj/index.html",
            "/proj/src/app.js",
            "/proj/src/other.html",
            "/proj/Makefile",
            "/proj/.env",
            "/proj/v1.2/notes",
        ])
    );
    assert_eq!(
        globs,
        vec![
            entry("/proj", "**/*.html"),
            entry("/proj", "**/*.js"),
            entry("/proj", "**/Makefile"),
            entry("/proj", "**/.env"),
            entry("/proj", "**/notes"),
        ]
    );
}

#[test]
fn detection_honours_a_configured_list() {
    let detector = DetectSources::new("/proj".to_string(), strings(&["html"]));
    let (files, _) = detector.detect(&vec![file("/proj/a.html"), file("/proj/b.png")]);
    assert_eq!(files, strings(&["/proj/b.png"]));
}

#[test]
fn detected_globs_match_the_detected_files() {
    let detector = DetectSources::new("/proj".to_string(), default_ignored_extensions());
    let listing = vec![
        file("/proj/index.html"),
        file("/proj/src/deep/app.js"),
        file("/proj/src/other.html"),
        file("/proj/Makefile"),
    ];
    let (files, globs) = detector.detect(&listing);
    let mut covered: Vec<String> = vec![];
    for glob in &globs {
        covered.extend(match_files(glob, &listing).unwrap());
    }
    for path in &files {
        assert!(covered.contains(path));
    }
    assert_eq!(covered.len(), files.len());
}

#[test]
fn a_default_scanner_has_no_sources() {
    let mut scanner = Scanner::default();
    assert!(!scanner.is_ready());
    assert_eq!(scanner.get_files(), Some(vec![]));
    assert_eq!(scanner.scan(&vec![inline("flex")], &vec![]), Some(strings(&["flex"])));
}

#[test]
fn the_same_file_listed_twice_is_read_once() {
    let mut scanner = Scanner::new(Some(vec![entry("/p", "*.html"), entry("/p", "a.*")]));
    let listings = vec![vec![file("/p/a.html")], vec![file("/p/a.html")]];
    scanner.prepare(&vec![false, false], &listings);
    assert_eq!(scanner.get_files(), Some(strings(&["/p/a.html", "/p/a.html"])));
    let changed = scanner.changed_files(&vec![5, 5]).unwrap();
    assert_eq!(changed.len(), 1);
    assert!(scanner.changed_files(&vec![5, 5]).unwrap().is_empty());
}

#[test]
fn recursive_pattern_below_a_missing_directory_is_matched_as_a_glob() {
    let mut scanner = Scanner::new(Some(vec![entry("/proj", "src/**/*")]));
    assert_eq!(scanner.probes(), strings(&["/proj/src"]));
    let is_dir = vec![false];
    assert_eq!(scanner.roots(&is_dir), strings(&["/proj/src"]));
    let listings = vec![vec![file("/proj/src/a.html"), file("/proj/src/logo.png")]];
    scanner.prepare(&is_dir, &listings);
    assert_eq!(
        scanner.get_files(),
        Some(strings(&["/proj/src/a.html", "/proj/src/logo.png"]))
    );
    assert_eq!(scanner.get_globs(), Some(vec![entry("/proj/src", "**/*")]));
}

#[test]
fn recursive_pattern_below_a_directory_is_detected_automatically() {
    let mut scanner = Scanner::new(Some(vec![entry("/proj", "src/**/*")]));
    let is_dir = vec![true];
    assert_eq!(scanner.roots(&is_dir), strings(&["/proj/src"]));
    let listings = vec![vec![file("/proj/src/a.html"), file("/proj/src/logo.png")]];
    scanner.prepare(&is_dir, &listings);
    assert_eq!(scanner.get_files(), Some(strings(&["/proj/src/a.html"])));
    assert_eq!(scanner.get_globs(), Some(vec![entry("/proj/src", "**/*.html")]));
}

#[test]
fn source_with_a_malformed_glob_is_dropped() {
    let mut scanner = Scanner::new(Some(vec![
        entry("/proj", "a[/*.html"),
        entry("/proj", "src/*.html"),
    ]));
    let is_dir = vec![false, false];
    assert_eq!(scanner.roots(&is_dir), strings(&["/proj", "/proj/src"]));
    let listings = vec![
        vec![file("/proj/a[/x.html")],
        vec![file("/proj/src/y.html"), file("/proj/src/y.js")],
    ];
    scanner.prepare(&is_dir, &listings);
    assert!(scanner.is_ready());
    assert_eq!(scanner.get_files(), Some(strings(&["/proj/src/y.html"])));
    assert_eq!(scanner.get_globs(), Some(vec![entry("/proj/src", "*.html")]));
}

#[test]
fn well_formed_source_resolves_the_same_with_and_without_a_malformed_one() {
    let mut alone = Scanner::new(Some(vec![entry("/proj", "src/*.html")]));
    alone.prepare(&vec![false], &vec![vec![file("/proj/src/y.html")]]);
    let mut beside = Scanner::new(Some(vec![
        entry("/proj", "src/*.html"),
        entry("/proj", "{a,b/*.html"),
    ]));
    beside.prepare(&vec![false, false], &vec![vec![file("/proj/src/y.html")], vec![]]);
    assert_eq!(alone.get_files(), beside.get_files());
    assert_eq!(alone.get_globs(), beside.get_globs());
}

#[test]
fn glob_that_matches_nothing_stays_among_the_globs() {
    let mut scanner = Scanner::new(Some(vec![entry("/proj", "src/*.html")]));
    scanner.prepare(&vec![false], &vec![vec![file("/proj/src/y.js")]]);
    assert_eq!(scanner.get_files(), Some(vec![]));
    assert_eq!(scanner.get_globs(), Some(vec![entry("/proj/src", "*.html")]));
}

#[test]
fn candidates_of_plain_files_hold_no_quote_blank_or_equals_sign() {
    let mut scanner = project();
    let changed = scanner.changed_files(&vec![10, 20]).unwrap();
    let contents = project_contents();
    let candidates = scanner.scan(&changed, &contents).unwrap();
    for text in &candidates {
        assert!(!text.contains(|c: char| c.is_whitespace() || "\"'`=".contains(c)));
        assert!(contents.iter().flatten().any(|bytes| {
            bytes.windows(text.len()).any(|window| window == text.as_bytes())
        }));
    }
}
