use a_thing::filters::{
    contains_chars, contains_str, ends_with, filter_by_length, not_contains_chars,
    not_contains_str, positional_contains_chars, positional_not_contains_chars, starts_with,
    Filters,
};

fn test_dict() -> [String; 5] {
    [
        "foo".to_string(),
        "bfoo".to_string(),
        "foobar".to_string(),
        "foobarbaz".to_string(),
        "bfoobarbaz".to_string(),
    ]
}

#[test]
fn by_length() -> () {
    let res = filter_by_length(&test_dict(), 6).apply();

    assert_eq!(res.len(), 1);
    assert_eq!(res[0], "foobar")
}
#[test]
fn starts_with_test() -> () {
    let res = starts_with(&test_dict(), "foo").apply();

    assert_eq!(res.len(), 3);
    assert_eq!(res[0], "foo");
    assert_eq!(res[1], "foobar");
    assert_eq!(res[2], "foobarbaz");
}
#[test]
fn ends_with_test() -> () {
    let res = ends_with(&test_dict(), "baz").apply();

    assert_eq!(res.len(), 2);
    assert_eq!(res[0], "foobarbaz");
    assert_eq!(res[1], "bfoobarbaz");
}
#[test]
fn contains_str_test() -> () {
    let res = contains_str(&test_dict(), "bar").apply();

    assert_eq!(res.len(), 3);
    assert_eq!(res[0], "foobar");
    assert_eq!(res[1], "foobarbaz");
    assert_eq!(res[2], "bfoobarbaz");
}
#[test]
fn not_contains_str_test() -> () {
    let res = not_contains_str(&test_dict(), "bar").apply();

    assert_eq!(res[0], "foo");
    assert_eq!(res[1], "bfoo");
    assert_eq!(res.len(), 2);
}
#[test]
fn contains_chars_test() -> () {
    let res = contains_chars(&test_dict(), "br").apply();

    assert_eq!(res.len(), 3);
    assert_eq!(res[0], "foobar");
    assert_eq!(res[1], "foobarbaz");
    assert_eq!(res[2], "bfoobarbaz");
}
#[test]
fn not_contains_chars_test() -> () {
    let res = not_contains_chars(&test_dict(), "bz").apply();

    assert_eq!(res.len(), 1);
    assert_eq!(res[0], "foo");
}
#[test]
fn positional_contains_chars_test() -> () {
    let res =
        positional_contains_chars(&test_dict(), &[None, None, Some('o'), None, Some('a')]).apply();

    assert_eq!(res.len(), 2);
    assert_eq!(res[0], "foobar");
    assert_eq!(res[1], "foobarbaz");
}
#[test]
fn positional_not_contains_chars_test() -> () {
    let res = positional_not_contains_chars(&test_dict(), &[None, Some('f')]).apply();

    assert_eq!(res.len(), 3);
    assert_eq!(res[0], "foo");
    assert_eq!(res[1], "foobar");
    assert_eq!(res[2], "foobarbaz");
}

#[test]
fn blank_arguments_keep_every_word() {
    let dict = test_dict();
    let res = Filters::new(&dict)
        .starts_with("")
        .ends_with("")
        .contains_str("")
        .not_contains_str("")
        .contains_chars("")
        .not_contains_chars("")
        .positional_contains_chars(&[])
        .positional_not_contains_chars(&[None, None])
        .apply();
    assert_eq!(res, dict.to_vec());
}

#[test]
fn reapplying_a_constraint_changes_nothing() {
    let dict = test_dict();
    let once = Filters::new(&dict).contains_str("bar").apply();
    let twice = Filters::new(&dict).contains_str("bar").contains_str("bar").apply();
    assert_eq!(once, twice);
    let once = Filters::new(&dict).not_contains_chars("z").apply();
    let twice = Filters::new(&dict).not_contains_chars("z").not_contains_chars("z").apply();
    assert_eq!(once, twice);
}

#[test]
fn constraints_combine_in_order() {
    let dict = test_dict();
    let res = Filters::new(&dict).starts_with("b").ends_with("baz").apply();
    assert_eq!(res, vec!["bfoobarbaz".to_string()]);
    let res = Filters::new(&dict).contains_chars("o").take(2).filter_by_length(4).apply();
    assert_eq!(res, vec!["bfoo".to_string()]);
    let res = Filters::new(&dict).filter_by_length(4).take(2).apply();
    assert_eq!(res, vec!["bfoo".to_string()]);
}

#[test]
fn take_limits_the_words_that_reach_it() {
    let dict = test_dict();
    assert_eq!(Filters::new(&dict).take(0).apply().len(), 0);
    assert_eq!(Filters::new(&dict).take(2).apply(), vec!["foo".to_string(), "bfoo".to_string()]);
    assert_eq!(Filters::new(&dict).take(9).apply().len(), 5);
    let res = Filters::new(&dict).starts_with("foo").take(2).take(1).apply();
    assert_eq!(res, vec!["foo".to_string()]);
}

#[test]
fn positional_match_rejects_short_words() {
    let dict = vec!["ab".to_string(), "abc".to_string()];
    let res = Filters::new(&dict).positional_contains_chars(&[None, None, Some('c')]).apply();
    assert_eq!(res, vec!["abc".to_string()]);
}

#[test]
fn positional_mismatch_passes_short_words() {
    let dict = vec!["ab".to_string(), "abc".to_string(), "abd".to_string()];
    let res = Filters::new(&dict).positional_not_contains_chars(&[None, None, Some('c')]).apply();
    assert_eq!(res, vec!["ab".to_string(), "abd".to_string()]);
}

#[test]
fn empty_corpus_matches_nothing() {
    let dict: Vec<String> = vec![];
    assert_eq!(Filters::new(&dict).filter_by_length(3).apply().len(), 0);
    let dict = vec!["".to_string()];
    assert_eq!(Filters::new(&dict).filter_by_length(1).apply().len(), 0);
    assert_eq!(Filters::new(&dict).filter_by_length(0).apply().len(), 1);
    assert_eq!(Filters::new(&dict).contains_str("a").apply().len(), 0);
}

#[test]
fn length_counts_characters_not_bytes() {
    let dict = vec!["über".to_string(), "uber".to_string(), "ü".to_string()];
    assert_eq!(Filters::new(&dict).filter_by_length(4).apply().len(), 2);
    assert_eq!(Filters::new(&dict).filter_by_length(1).apply(), vec!["ü".to_string()]);
    let res = Filters::new(&dict).positional_contains_chars(&[None, Some('b')]).apply();
    assert_eq!(res, vec!["über".to_string(), "uber".to_string()]);
}

#[test]
fn substring_search_finds_late_and_overlapping_matches() {
    let dict = vec!["aaab".to_string(), "abab".to_string(), "ba".to_string()];
    let res = Filters::new(&dict).contains_str("aab").apply();
    assert_eq!(res, vec!["aaab".to_string()]);
    let res = Filters::new(&dict).not_contains_str("ab").apply();
    assert_eq!(res, vec!["ba".to_string()]);
    let res = Filters::new(&dict).ends_with("ab").apply();
    assert_eq!(res, vec!["aaab".to_string(), "abab".to_string()]);
}
