//! Ranking candidate words for letter-guessing games: constraint filters narrow a word list,
//! and letter-frequency models of a corpus score and rank what remains.
use vstd::prelude::*;

pub mod char_map;
pub mod dict;
pub mod dict_filters;
pub mod dict_iter;
pub mod file;
pub mod filters;
pub mod pipeline;
pub mod text;

use crate::dict::{
    corpus_score, corpus_scores, count_chars, is_char_model, is_ranking, lemma_char_model_score,
    lemma_corpus_score_le, most_common, score_of, total_len, word_scores, CharWeights,
    WeightsType,
};
use crate::dict_iter::DictIter;
use crate::pipeline::{copy_words, Rule};

verus! {

/// A word list.
#[derive(Debug)]
pub struct Dict {
    words: Vec<String>,
}

impl View for Dict {
    type V = Seq<String>;

    closed spec fn view(&self) -> Seq<String> {
        self.words@
    }
}

impl Dict {
    /// The dictionary of the words of `v`, in order.
    pub fn from_vec(v: Vec<String>) -> (r: Self)
        ensures
            r@ == v@,
    {
        Dict { words: v }
    }

    /// The number of words.
    pub fn len(&self) -> (r: usize)
        ensures
            r == self@.len(),
    {
        self.words.len()
    }

    /// Word `i`.
    pub fn at(&self, i: usize) -> (r: &String)
        requires
            i < self@.len(),
        ensures
            *r == self@[i as int],
    {
        &self.words[i]
    }

    /// The words, in order.
    pub fn words(&self) -> (r: &[String])
        ensures
            r@ == self@,
    {
        self.words.as_slice()
    }

    /// A pipeline over these words that keeps those of exactly `len` characters.
    pub fn filter_by_length(self, len: usize) -> (r: DictIter)
        ensures
            r@ == self@.filter(Rule::Length(len as nat).keeps()),
    {
        DictIter::new(self.words).filter_by_length(len)
    }

    /// For each character of these words, the number of its occurrences.
    pub fn get_char_freq(&self) -> (r: CharWeights)
        requires
            total_len(self@) <= usize::MAX,
        ensures
            is_char_model(r@, self@),
    {
        count_chars(self.words.as_slice())
    }

    /// A pipeline over a copy of these words that keeps those that begin with `s`.
    pub fn starts_with(&self, s: &str) -> (r: DictIter)
        ensures
            r@ == self@.filter(Rule::StartsWith(s@).keeps()),
    {
        DictIter::new(copy_words(self.words.as_slice())).starts_with(s)
    }

    /// A pipeline over a copy of these words that keeps those that end with `s`.
    pub fn ends_with(&self, s: &str) -> (r: DictIter)
        ensures
            r@ == self@.filter(Rule::EndsWith(s@).keeps()),
    {
        DictIter::new(copy_words(self.words.as_slice())).ends_with(s)
    }

    /// A pipeline over a copy of these words that keeps those that hold every character of
    /// `chars`.
    pub fn contains(&self, chars: &str) -> (r: DictIter)
        ensures
            r@ == self@.filter(Rule::ContainsChars(chars@).keeps()),
    {
        DictIter::new(copy_words(self.words.as_slice())).contains(chars)
    }

    /// A pipeline over a copy of these words that keeps those that hold no character of
    /// `chars`.
    pub fn not_contains(&self, chars: &str) -> (r: DictIter)
        ensures
            r@ == self@.filter(Rule::NotContainsChars(chars@).keeps()),
    {
        DictIter::new(copy_words(self.words.as_slice())).not_contains(chars)
    }

    /// The `count` best-scoring of these words, best first, when each character weighs its
    /// number of occurrences over these words; ties keep word order.
    pub fn most_common(&self, count: usize) -> (r: Self)
        requires
            total_len(self@) <= usize::MAX,
        ensures
            r@.len() == if count < self@.len() {
                count as nat
            } else {
                self@.len()
            },
            is_ranking(corpus_scores(self@), self@, r@),
    {
        let freq = count_chars(self.words.as_slice());
        let ghost m = freq;
        let model = WeightsType::CharWeights(freq);
        proof {
            assert forall|i: int| 0 <= i < self@.len() implies #[trigger] score_of(self@[i]@, model)
                == corpus_score(self@[i]@, self@) && score_of(self@[i]@, model) <= usize::MAX by {
                lemma_char_model_score(self@[i]@, m, self@);
                lemma_corpus_score_le(self@[i]@, self@);
            }
            assert(word_scores(self@, model) =~= corpus_scores(self@));
        }
        Dict::from_vec(most_common(self.words.as_slice(), &model, count))
    }
}

} // verus!
