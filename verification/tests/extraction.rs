use oxide::content::parse_all_blobs;
use oxide::content::read_all_files;
use oxide::content::read_changed_content;
use oxide::content::ChangedContent;
use oxide::parser::Extractor;

fn texts(buf: &str) -> Vec<String> {
    Extractor::with_positions(buf.as_bytes()).into_iter().map(|item| item.0).collect()
}

fn sorted_unique(buf: &str) -> Vec<String> {
    let mut items: Vec<String> = Extractor::unique(buf.as_bytes()).into_iter().collect();
    items.sort();
    items
}

fn strings(items: &[&str]) -> Vec<String> {
    items.iter().map(|item| item.to_string()).collect()
}

#[test]
fn extracts_classes_from_an_attribute() {
    assert_eq!(texts("class=\"p-4 text-sm\""), strings(&["class", "p-4", "text-sm"]));
}

#[test]
fn extracts_a_variant_and_the_utility_behind_it() {
    assert_eq!(
        texts("const x = \"hidden md:flex\""),
        strings(&["const", "x", "hidden", "md:flex", "flex"])
    );
}

#[test]
fn positions_are_byte_offsets() {
    let items = Extractor::with_positions("\u{e9} flex flex".as_bytes());
    assert_eq!(items, vec![("flex".to_string(), 3), ("flex".to_string(), 8)]);
}

#[test]
fn positions_keep_duplicates_and_unique_drops_them() {
    assert_eq!(texts("flex flex p-4"), strings(&["flex", "flex", "p-4"]));
    assert_eq!(sorted_unique("flex flex p-4"), strings(&["flex", "p-4"]));
}

#[test]
fn extracts_arbitrary_values_and_modifiers() {
    assert_eq!(
        texts("-mt-4 !p-2 p-2! w-1/2 top-1.5 bg-[#fff] [&>*]:p-4 hover:!-mt-[2px]"),
        strings(&[
            "-mt-4",
            "!p-2",
            "p-2!",
            "w-1/2",
            "top-1.5",
            "bg-[#fff]",
            "[&>*]:p-4",
            "p-4",
            "hover:!-mt-[2px]",
            "!-mt-[2px]",
        ])
    );
}

#[test]
fn rejects_what_is_no_candidate() {
    assert_eq!(texts("p-4. a--; <div> {x} a:: !! [] a-[] x[y a:!b: \u{e9}x"), Vec::<String>::new());
}

#[test]
fn quotes_inside_brackets_belong_to_the_candidate() {
    assert_eq!(
        texts("content-['hello']"),
        strings(&["content-['hello']", "hello"])
    );
}

#[test]
fn never_splits_a_multi_byte_character() {
    for item in Extractor::with_positions("caf\u{e9} \u{e9}a b\u{e9} ok \u{1f600}x".as_bytes()) {
        assert!(item.0.is_ascii());
    }
    assert_eq!(texts("caf\u{e9} \u{e9}a b\u{e9} ok \u{1f600}x"), strings(&["ok"]));
}

#[test]
fn arbitrary_bytes_are_scanned_without_failure() {
    let buf: Vec<u8> = vec![0xff, 0xfe, 0x20, b'p', b'-', b'4', 0x20, 0x80, 0x00, b'"', b'x', b'"'];
    let items = Extractor::with_positions(&buf);
    assert_eq!(items, vec![("p-4".to_string(), 3), ("x".to_string(), 10)]);
}

#[test]
fn empty_buffer_has_no_candidates() {
    assert_eq!(texts(""), Vec::<String>::new());
    assert!(Extractor::unique(b"").is_empty());
}

#[test]
fn extraction_is_deterministic() {
    let buf = "class=\"p-4 text-sm hover:underline\"";
    assert_eq!(sorted_unique(buf), sorted_unique(buf));
    assert_eq!(Extractor::unique(buf.as_bytes()), Extractor::unique(buf.as_bytes()));
}

#[test]
fn blobs_are_merged_sorted_and_deduplicated() {
    let blobs = vec![b"z-10 flex".to_vec(), b"flex a-1".to_vec()];
    assert_eq!(parse_all_blobs(&blobs), strings(&["a-1", "flex", "z-10"]));
}

#[test]
fn merging_does_not_depend_on_the_order_of_the_blobs() {
    let a = b"z-10 flex".to_vec();
    let b = b"flex a-1".to_vec();
    let c = b"md:p-4".to_vec();
    let one = parse_all_blobs(&vec![a.clone(), b.clone(), c.clone()]);
    let other = parse_all_blobs(&vec![c, a, b]);
    assert_eq!(one, other);
}

#[test]
fn sorting_is_by_bytes() {
    let blobs = vec![b"b B a-1 a_1 a1 Z".to_vec()];
    assert_eq!(parse_all_blobs(&blobs), strings(&["B", "Z", "a-1", "a1", "a_1", "b"]));
}

#[test]
fn inline_content_is_used_as_it_is() {
    let item = ChangedContent {
        file: Some("a.svelte".to_string()),
        content: Some("<div class:flex>".to_string()),
    };
    assert_eq!(
        read_changed_content(&item, &Some(b"ignored".to_vec())),
        Some(b"<div class:flex>".to_vec())
    );
}

#[test]
fn component_templates_lose_their_class_directives() {
    let item = ChangedContent { file: Some("src/App.svelte".to_string()), content: None };
    let loaded = Some(b"<div class:flex={on} class:p-4={on}>".to_vec());
    assert_eq!(read_changed_content(&item, &loaded), Some(b"<div flex={on} p-4={on}>".to_vec()));
    let blobs = read_all_files(&vec![item], &vec![loaded]);
    assert_eq!(parse_all_blobs(&blobs), strings(&["flex", "p-4"]));
}

#[test]
fn other_files_are_scanned_as_they_are() {
    let item = ChangedContent { file: Some("src/app.html".to_string()), content: None };
    let loaded = Some(b"<div class:flex>".to_vec());
    assert_eq!(read_changed_content(&item, &loaded), Some(b"<div class:flex>".to_vec()));
}

#[test]
fn unreadable_files_are_dropped_from_the_batch() {
    let batch = vec![
        ChangedContent { file: Some("gone.html".to_string()), content: None },
        ChangedContent { file: None, content: None },
        ChangedContent { file: None, content: Some("flex".to_string()) },
        ChangedContent { file: Some("here.html".to_string()), content: None },
    ];
    let loaded = vec![None, None, None, Some(b"p-4".to_vec())];
    assert_eq!(read_all_files(&batch, &loaded), vec![b"flex".to_vec(), b"p-4".to_vec()]);
}

#[test]
fn a_short_list_of_loaded_files_counts_as_unreadable() {
    let batch = vec![ChangedContent { file: Some("a.html".to_string()), content: None }];
    assert_eq!(read_all_files(&batch, &vec![]), Vec::<Vec<u8>>::new());
}
