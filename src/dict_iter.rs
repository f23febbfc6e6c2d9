//! A filter pipeline over an owned corpus, with constraints on length, affixes and character
//! sets; `apply` yields a dictionary of the words that pass them all, in corpus order.
use vstd::prelude::*;

use crate::pipeline::{
    lemma_blank_rule_keeps_all, lemma_run_push, run, run_stages, Constraint, Rule, Stage,
};
use crate::text::chars_of;
use crate::Dict;

verus! {

/// The words of an owned corpus, narrowed by the stages attached so far.
pub struct DictIter {
    words: Vec<String>,
    stages: Vec<Stage>,
}

impl View for DictIter {
    type V = Seq<String>;

    /// The words that `apply` will return.
    closed spec fn view(&self) -> Seq<String> {
        run(self.words@, self.stages@)
    }
}

impl DictIter {
    /// A pipeline with no stages yet over `words`.
    pub fn new(words: Vec<String>) -> (r: Self)
        ensures
            r@ == words@,
    {
        DictIter { words, stages: Vec::new() }
    }

    fn push_stage(self, st: Stage) -> (r: Self)
        ensures
            r@ == crate::pipeline::step(self@, st),
    {
        let ghost old_stages = self.stages@;
        let ghost st_copy = st;
        let mut stages = self.stages;
        stages.push(st);
        proof {
            lemma_run_push(self.words@, old_stages, st_copy);
        }
        DictIter { words: self.words, stages }
    }

    fn keep(self, c: Constraint) -> (r: Self)
        ensures
            r@ == self@.filter(c@.keeps()),
    {
        self.push_stage(Stage::Keep(c))
    }

    /// Keeps the words of exactly `len` characters.
    pub fn filter_by_length(self, len: usize) -> (r: Self)
        ensures
            r@ == self@.filter(Rule::Length(len as nat).keeps()),
    {
        self.keep(Constraint::Length(len))
    }

    /// Keeps the words that begin with `s`; an empty `s` keeps all.
    pub fn starts_with(self, s: &str) -> (r: Self)
        ensures
            r@ == self@.filter(Rule::StartsWith(s@).keeps()),
    {
        if s.is_empty() {
            proof {
                lemma_blank_rule_keeps_all(self@, Rule::StartsWith(s@));
            }
            return self;
        }
        self.keep(Constraint::StartsWith(chars_of(s)))
    }

    /// Keeps the words that end with `s`; an empty `s` keeps all.
    pub fn ends_with(self, s: &str) -> (r: Self)
        ensures
            r@ == self@.filter(Rule::EndsWith(s@).keeps()),
    {
        if s.is_empty() {
            proof {
                lemma_blank_rule_keeps_all(self@, Rule::EndsWith(s@));
            }
            return self;
        }
        self.keep(Constraint::EndsWith(chars_of(s)))
    }

    /// Keeps the words that hold every character of `chars`; an empty `chars` keeps all.
    pub fn contains(self, chars: &str) -> (r: Self)
        ensures
            r@ == self@.filter(Rule::ContainsChars(chars@).keeps()),
    {
        if chars.is_empty() {
            proof {
                lemma_blank_rule_keeps_all(self@, Rule::ContainsChars(chars@));
            }
            return self;
        }
        self.keep(Constraint::ContainsChars(chars_of(chars)))
    }

    /// Keeps the words that hold no character of `chars`; an empty `chars` keeps all.
    pub fn not_contains(self, chars: &str) -> (r: Self)
        ensures
            r@ == self@.filter(Rule::NotContainsChars(chars@).keeps()),
    {
        if chars.is_empty() {
            proof {
                lemma_blank_rule_keeps_all(self@, Rule::NotContainsChars(chars@));
            }
            return self;
        }
        self.keep(Constraint::NotContainsChars(chars_of(chars)))
    }

    /// The dictionary of the words that pass every stage, in corpus order.
    pub fn apply(self) -> (r: Dict)
        ensures
            r@ == self@,
    {
        Dict::from_vec(run_stages(self.words.as_slice(), &self.stages))
    }
}

} // verus!
