use a_thing::dict_filters::DictFilters;

fn words(ws: &[&str]) -> Vec<String> {
    ws.iter().map(|w| w.to_string()).collect()
}

#[test]
fn filter_by_length() -> () {
    let res = DictFilters::new(words(&["foo", "foobar", "foobarbaz"]))
        .filter_by_length(6)
        .apply();

    assert!(res.len() == 1);
    assert!(res.at(0) == "foobar")
}
#[test]
fn starts_with() -> () {
    let res = DictFilters::new(words(&["bfoo", "foobar", "bfoobarbaz", "foobarbaz"]))
        .starts_with("foo")
        .apply();

    assert!(res.len() == 2);
    assert!(res.at(0) == "foobar");
    assert!(res.at(1) == "foobarbaz");
}
#[test]
fn ends_with() -> () {
    let res = DictFilters::new(words(&["foo", "foobar", "foobarbaz", "foobarbazbar"]))
        .ends_with("bar")
        .apply();

    assert!(res.len() == 2);
    assert!(res.at(0) == "foobar");
    assert!(res.at(1) == "foobarbazbar");
}
#[test]
fn contains_str() -> () {
    let res = DictFilters::new(words(&["foo", "foobar", "foobarbaz"]))
        .contains_str("bar")
        .apply();

    assert!(res.len() == 2);
    assert!(res.at(0) == "foobar");
    assert!(res.at(1) == "foobarbaz");
}
#[test]
fn not_contains_str() -> () {
    let res = DictFilters::new(words(&["foo", "foobar", "foobarbaz"]))
        .not_contains_str("bar")
        .apply();

    assert!(res.at(0) == "foo");
    assert!(res.len() == 1);
}
#[test]
fn contains_chars() -> () {
    let res = DictFilters::new(words(&["foo", "foobar", "foobarbaz"]))
        .contains_chars("br")
        .apply();

    assert!(res.len() == 2);
    assert!(res.at(0) == "foobar");
    assert!(res.at(1) == "foobarbaz");
}
#[test]
fn not_contains_chars() -> () {
    let res = DictFilters::new(words(&["foo", "foobar", "foobarbaz"]))
        .not_contains_chars("bz")
        .apply();

    assert!(res.len() == 1);
    assert!(res.at(0) == "foo");
}
#[test]
fn positional_contains_chars() -> () {
    let res = DictFilters::new(words(&["foo", "foobar", "foobarbaz", "fobarbaz"]))
        .positional_contains_chars(&[None, None, Some('o'), None, Some('a')])
        .apply();

    assert!(res.len() == 2);
    assert!(res.at(0) == "foobar");
    assert!(res.at(1) == "foobarbaz");
}
#[test]
fn positional_not_contains_chars() -> () {
    let res = DictFilters::new(words(&[
        "foo",
        "baz",
        "foobar",
        "foobarbaz",
        "fozbarbaz",
        "fobarbaz",
    ]))
    .positional_not_contains_chars(&[None, None, Some('o'), None, Some('a')])
    .apply();

    assert!(res.len() == 2);
    assert!(res.at(0) == "baz");
    assert!(res.at(1) == "fobarbaz");
}

#[test]
fn chained_constraints_apply_together() {
    let res = DictFilters::new(words(&["crane", "crate", "trace", "react", "caret"]))
        .filter_by_length(5)
        .contains_chars("ce")
        .not_contains_chars("n")
        .positional_contains_chars(&[Some('c')])
        .positional_not_contains_chars(&[None, None, None, None, Some('e')])
        .apply();
    assert!(res.len() == 1);
    assert!(res.at(0) == "caret");
}
