use a_thing::dict_iter::DictIter;
use a_thing::Dict;

fn words(ws: &[&str]) -> Vec<String> {
    ws.iter().map(|w| w.to_string()).collect()
}

#[test]
fn it_works() -> () {
    // an absent word file gives an empty dictionary
    let d = Dict::from_vec(vec![]);
    let words = d
        .filter_by_length(5)
        .starts_with("")
        .ends_with("")
        .contains("")
        .not_contains("")
        .apply()
        .most_common(10);

    println!("{:#?}", words.words())
}

#[test]
fn dict_iter_chains_filters() {
    let res = DictIter::new(words(&["stare", "store", "stole", "stove", "shore"]))
        .filter_by_length(5)
        .starts_with("st")
        .ends_with("e")
        .contains("o")
        .not_contains("lv")
        .apply();
    assert_eq!(res.words(), &["store".to_string()][..]);
}

#[test]
fn dict_filters_from_its_words() {
    let d = Dict::from_vec(words(&["foo", "bar", "baz"]));
    assert_eq!(d.starts_with("ba").apply().words(), &words(&["bar", "baz"])[..]);
    assert_eq!(d.ends_with("o").apply().words(), &words(&["foo"])[..]);
    assert_eq!(d.contains("az").apply().words(), &words(&["baz"])[..]);
    assert_eq!(d.not_contains("a").apply().words(), &words(&["foo"])[..]);
    assert_eq!(d.len(), 3);
    assert_eq!(d.filter_by_length(3).apply().len(), 3);
}

#[test]
fn dict_most_common_uses_its_own_frequencies() {
    let d = Dict::from_vec(words(&["foo", "bar", "baz"]));
    let freq = d.get_char_freq();
    assert_eq!(freq.get(&'o'), Some(&2));
    assert_eq!(freq.get(&'q'), None);
    let top = d.most_common(2);
    assert_eq!(top.words(), &words(&["bar", "baz"])[..]);
    assert_eq!(d.most_common(0).len(), 0);
    assert_eq!(d.most_common(7).len(), 3);
}
