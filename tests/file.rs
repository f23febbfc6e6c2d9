use a_thing::file::{words_from_text, words_to_text};

#[test]
fn word_text_splits_on_newlines() {
    assert_eq!(words_from_text("foo\nbar\nbaz"), vec!["foo", "bar", "baz"]);
    assert_eq!(words_from_text("foo\n"), vec!["foo", ""]);
    assert_eq!(words_from_text(""), vec![""]);
    assert_eq!(words_from_text("a\n\nb"), vec!["a", "", "b"]);
}

#[test]
fn word_text_joins_with_newlines() {
    let dict = vec!["foo".to_string(), "über".to_string()];
    assert_eq!(words_to_text(&dict), "foo\nüber");
    assert_eq!(words_to_text(&[]), "");
    assert_eq!(words_to_text(&["one".to_string()]), "one");
    assert_eq!(words_from_text(&words_to_text(&dict)), dict);
}
