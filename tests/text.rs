use minigrep::{contains_text, lines};

#[test]
fn lines_split_on_newline() {
    assert_eq!(vec!["a", "b", "c"], lines("a\nb\nc"));
}

#[test]
fn lines_trailing_newline_adds_no_line() {
    assert_eq!(vec!["a", "b"], lines("a\nb\n"));
    assert_eq!(vec![""], lines("\n"));
}

#[test]
fn lines_keep_inner_empty_lines() {
    assert_eq!(vec!["a", "", "", "b"], lines("a\n\n\nb"));
}

#[test]
fn lines_of_empty_text() {
    assert_eq!(Vec::<&str>::new(), lines(""));
}

#[test]
fn lines_drop_carriage_return_only_before_newline() {
    assert_eq!(vec!["a", "b\r"], lines("a\r\nb\r"));
    assert_eq!(vec!["a\rb"], lines("a\rb"));
    assert_eq!(vec!["", "x"], lines("\r\nx"));
}

#[test]
fn lines_handle_multibyte_characters() {
    assert_eq!(vec!["héllo", "wörld ✓", "🦀"], lines("héllo\nwörld ✓\n🦀\n"));
}

#[test]
fn contains_text_finds_runs() {
    assert!(contains_text("productive", "duct"));
    assert!(contains_text("duct", "duct"));
    assert!(contains_text("anything", ""));
    assert!(contains_text("", ""));
    assert!(!contains_text("Duct tape", "duct"));
    assert!(!contains_text("du", "duct"));
    assert!(!contains_text("", "a"));
    assert!(contains_text("aaab", "aab"));
    assert!(contains_text("wörld ✓", "ld ✓"));
}
