use a_thing::char_map::CharMap;
use a_thing::dict::{get_char_position_weights, get_char_weights, most_common, score, WeightsType};

fn test_dict() -> [String; 3] {
    ["foo".to_string(), "bar".to_string(), "baz".to_string()]
}

fn words(ws: &[&str]) -> Vec<String> {
    ws.iter().map(|w| w.to_string()).collect()
}

#[test]
fn get_char_weights_test() {
    if let WeightsType::CharWeights(weights) = get_char_weights(&test_dict()) {
        assert_eq!(weights.get(&'a'), Some(&2));
        assert_eq!(weights.get(&'b'), Some(&2));
        assert_eq!(weights.get(&'f'), Some(&1));
        assert_eq!(weights.get(&'r'), Some(&1));
        assert_eq!(weights.get(&'o'), Some(&2));
        assert_eq!(weights.get(&'z'), Some(&1));
    }
}

#[test]
fn get_char_position_weights_test() {
    if let WeightsType::CharPositionWeights(weights) = get_char_position_weights(&test_dict()) {
        assert_eq!(weights.get(&'f').unwrap()[0], 1);
        assert_eq!(weights.get(&'b').unwrap()[0], 2);
        assert_eq!(weights.get(&'o').unwrap()[1], 1);
        assert_eq!(weights.get(&'o').unwrap()[2], 1);
        assert_eq!(weights.get(&'a').unwrap()[1], 2);
        assert_eq!(weights.get(&'r').unwrap()[2], 1);
        assert_eq!(weights.get(&'z').unwrap()[2], 1);
    }
}

#[test]
fn char_weights_are_exact() {
    let WeightsType::CharWeights(weights) = get_char_weights(&test_dict()) else {
        panic!("a character model was expected");
    };
    assert_eq!(weights.get(&'x'), None);
    assert_eq!(weights.get(&'o'), Some(&2));
}

#[test]
fn position_weights_are_exact() {
    let WeightsType::CharPositionWeights(weights) = get_char_position_weights(&test_dict()) else {
        panic!("a positional model was expected");
    };
    let o = weights.get(&'o').unwrap();
    assert_eq!(o[0], 0);
    assert_eq!(o[1], 1);
    assert_eq!(o[2], 1);
    assert_eq!(o[3], 0);
    assert_eq!(weights.get(&'x'), None);
}

#[test]
fn empty_corpus_gives_empty_models() {
    let WeightsType::CharWeights(weights) = get_char_weights(&[]) else {
        panic!("a character model was expected");
    };
    assert_eq!(weights.get(&'a'), None);
    let WeightsType::CharPositionWeights(weights) = get_char_position_weights(&[]) else {
        panic!("a positional model was expected");
    };
    assert_eq!(weights.get(&'a'), None);
}

#[test]
fn multibyte_characters_count_as_one_position() {
    let dict = words(&["über"]);
    let WeightsType::CharPositionWeights(weights) = get_char_position_weights(&dict) else {
        panic!("a positional model was expected");
    };
    assert_eq!(weights.get(&'ü').unwrap()[0], 1);
    assert_eq!(weights.get(&'b').unwrap()[1], 1);
    assert_eq!(weights.get(&'r').unwrap()[3], 1);
}

#[test]
fn score_counts_each_distinct_character_once() {
    let mut m = CharMap::new();
    m.insert('e', 5);
    m.insert('r', 2);
    m.insert('i', 1);
    let model = WeightsType::CharWeights(m);
    assert_eq!(score(&"eerie".to_string(), &model), 8);
}

#[test]
fn score_ignores_characters_without_weight() {
    let mut m = CharMap::new();
    m.insert('a', 3);
    let model = WeightsType::CharWeights(m);
    assert_eq!(score(&"xyz".to_string(), &model), 0);
    assert_eq!(score(&"".to_string(), &model), 0);
    assert_eq!(score(&"banana".to_string(), &model), 3);
}

#[test]
fn positional_score_uses_first_occurrence() {
    let dict = words(&["foo", "bar", "baz"]);
    let model = get_char_position_weights(&dict);
    // 'b' at 0 (2), 'a' at 1 (2), 'z' at 2 (1)
    assert_eq!(score(&"baz".to_string(), &model), 5);
    // 'o' first at 0: no word holds 'o' there; 'f' absent from 1 onwards
    assert_eq!(score(&"oof".to_string(), &model), 0);
    // 'f' at 0 (1), 'o' first at 1 (1); the second 'o' adds nothing
    assert_eq!(score(&"foo".to_string(), &model), 2);
}

#[test]
fn end_to_end_ranking() {
    let dict = words(&["foo", "bar", "baz"]);
    let model = get_char_weights(&dict);
    if let WeightsType::CharWeights(weights) = &model {
        assert_eq!(weights.get(&'a'), Some(&2));
        assert_eq!(weights.get(&'b'), Some(&2));
        assert_eq!(weights.get(&'f'), Some(&1));
        assert_eq!(weights.get(&'o'), Some(&2));
        assert_eq!(weights.get(&'r'), Some(&1));
        assert_eq!(weights.get(&'z'), Some(&1));
    } else {
        panic!("a character model was expected");
    }
    assert_eq!(score(&"baz".to_string(), &model), 5);
    assert_eq!(score(&"bar".to_string(), &model), 5);
    assert_eq!(score(&"foo".to_string(), &model), 3);
    assert_eq!(most_common(&dict, &model, 2), words(&["bar", "baz"]));
}

#[test]
fn ties_keep_corpus_order() {
    let mut m = CharMap::new();
    m.insert('a', 1);
    m.insert('t', 1);
    m.insert('b', 1);
    m.insert('c', 1);
    let model = WeightsType::CharWeights(m);
    let dict = words(&["bat", "cat"]);
    assert_eq!(most_common(&dict, &model, 2), words(&["bat", "cat"]));
    let dict = words(&["cat", "bat"]);
    assert_eq!(most_common(&dict, &model, 2), words(&["cat", "bat"]));
}

#[test]
fn ranking_orders_by_descending_score() {
    let mut m = CharMap::new();
    m.insert('a', 1);
    m.insert('b', 10);
    m.insert('c', 100);
    let model = WeightsType::CharWeights(m);
    let dict = words(&["a", "b", "c", "ab", "aa"]);
    assert_eq!(most_common(&dict, &model, 5), words(&["c", "ab", "b", "a", "aa"]));
    assert_eq!(most_common(&dict, &model, 3), words(&["c", "ab", "b"]));
}

#[test]
fn top_k_length_is_min_of_k_and_corpus() {
    let dict = words(&["foo", "bar", "baz"]);
    let model = get_char_weights(&dict);
    assert_eq!(most_common(&dict, &model, 0).len(), 0);
    assert_eq!(most_common(&dict, &model, 1).len(), 1);
    assert_eq!(most_common(&dict, &model, 3).len(), 3);
    assert_eq!(most_common(&dict, &model, 10).len(), 3);
    assert_eq!(most_common(&[], &model, 10).len(), 0);
}

#[test]
fn duplicate_words_are_ranked_separately() {
    let dict = words(&["foo", "foo", "bar"]);
    let model = get_char_weights(&dict);
    // foo: f(2) + o(4) = 6; bar: 1 + 1 + 1 = 3
    assert_eq!(most_common(&dict, &model, 3), words(&["foo", "foo", "bar"]));
}

#[test]
fn char_map_insert_replaces() {
    let mut m = CharMap::new();
    assert_eq!(m.get(&'q'), None);
    m.insert('q', 1);
    m.insert('q', 7);
    assert_eq!(m.get(&'q'), Some(&7));
}
