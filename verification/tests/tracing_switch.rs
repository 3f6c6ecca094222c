use oxide::trace::contains_text;
use oxide::trace::should_trace;

#[test]
fn diagnostics_are_off_without_a_setting() {
    assert!(!should_trace(None));
}

#[test]
fn diagnostics_are_on_for_the_recognised_values() {
    assert!(should_trace(Some("*")));
    assert!(should_trace(Some("1")));
    assert!(should_trace(Some("true")));
    assert!(should_trace(Some("tailwind")));
    assert!(should_trace(Some("app,tailwindcss:*")));
}

#[test]
fn diagnostics_are_off_for_anything_else() {
    assert!(!should_trace(Some("")));
    assert!(!should_trace(Some("0")));
    assert!(!should_trace(Some("false")));
    assert!(!should_trace(Some("True")));
    assert!(!should_trace(Some("**")));
    assert!(!should_trace(Some("tailwin")));
    assert!(!should_trace(Some("tail-wind")));
}

#[test]
fn text_is_found_wherever_it_stands() {
    let hay: Vec<char> = "abcabd".chars().collect();
    assert!(contains_text(&hay, &"abd".chars().collect()));
    assert!(contains_text(&hay, &"abc".chars().collect()));
    assert!(contains_text(&hay, &vec![]));
    assert!(!contains_text(&hay, &"abe".chars().collect()));
    assert!(!contains_text(&hay, &"abcabdx".chars().collect()));
}
