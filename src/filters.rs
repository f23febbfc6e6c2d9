//! A filter pipeline over a borrowed corpus: constraints are attached one at a time, and
//! `apply` yields the words that pass them all, in corpus order.
use vstd::prelude::*;
use vstd::slice::slice_to_vec;

use crate::pipeline::{
    lemma_blank_rule_keeps_all, lemma_run_push, run, run_stages, first_n, Constraint, Rule, Stage,
};
use crate::text::chars_of;

verus! {

/// The words of a borrowed corpus, narrowed by the stages attached so far.
pub struct Filters<'a> {
    words: &'a [String],
    stages: Vec<Stage>,
}

impl<'a> View for Filters<'a> {
    type V = Seq<String>;

    /// The words that `apply` will return.
    closed spec fn view(&self) -> Seq<String> {
        run(self.words@, self.stages@)
    }
}

impl<'a> Filters<'a> {
    /// A pipeline with no stages yet over `dict`.
    pub fn new(dict: &'a [String]) -> (r: Self)
        ensures
            r@ == dict@,
    {
        Filters { words: dict, stages: Vec::new() }
    }

    fn push_stage(self, st: Stage) -> (r: Self)
        ensures
            r@ == crate::pipeline::step(self@, st),
    {
        let ghost old_stages = self.stages@;
        let ghost st_copy = st;
        let mut stages = self.stages;
        stages.push(st);
        proof {
            lemma_run_push(self.words@, old_stages, st_copy);
        }
        Filters { words: self.words, stages }
    }

    fn keep(self, c: Constraint) -> (r: Self)
        ensures
            r@ == self@.filter(c@.keeps()),
    {
        self.push_stage(Stage::Keep(c))
    }

    /// Keeps the words of exactly `len` characters.
    pub fn filter_by_length(self, len: usize) -> (r: Self)
        ensures
            r@ == self@.filter(Rule::Length(len as nat).keeps()),
    {
        self.keep(Constraint::Length(len))
    }

    /// Keeps the words that begin with `s`; an empty `s` keeps all.
    pub fn starts_with(self, s: &str) -> (r: Self)
        ensures
            r@ == self@.filter(Rule::StartsWith(s@).keeps()),
    {
        if s.is_empty() {
            proof {
                lemma_blank_rule_keeps_all(self@, Rule::StartsWith(s@));
            }
            return self;
        }
        self.keep(Constraint::StartsWith(chars_of(s)))
    }

    /// Keeps the words that end with `s`; an empty `s` keeps all.
    pub fn ends_with(self, s: &str) -> (r: Self)
        ensures
            r@ == self@.filter(Rule::EndsWith(s@).keeps()),
    {
        if s.is_empty() {
            proof {
                lemma_blank_rule_keeps_all(self@, Rule::EndsWith(s@));
            }
            return self;
        }
        self.keep(Constraint::EndsWith(chars_of(s)))
    }

    /// Keeps the words in which `s` stands; an empty `s` keeps all.
    pub fn contains_str(self, s: &str) -> (r: Self)
        ensures
            r@ == self@.filter(Rule::ContainsStr(s@).keeps()),
    {
        if s.is_empty() {
            proof {
                lemma_blank_rule_keeps_all(self@, Rule::ContainsStr(s@));
            }
            return self;
        }
        self.keep(Constraint::ContainsStr(chars_of(s)))
    }

    /// Keeps the words in which `s` does not stand; an empty `s` keeps all.
    pub fn not_contains_str(self, s: &str) -> (r: Self)
        ensures
            r@ == self@.filter(Rule::NotContainsStr(s@).keeps()),
    {
        if s.is_empty() {
            proof {
                lemma_blank_rule_keeps_all(self@, Rule::NotContainsStr(s@));
            }
            return self;
        }
        self.keep(Constraint::NotContainsStr(chars_of(s)))
    }

    /// Keeps the words that hold every character of `chars`; an empty `chars` keeps all.
    pub fn contains_chars(self, chars: &str) -> (r: Self)
        ensures
            r@ == self@.filter(Rule::ContainsChars(chars@).keeps()),
    {
        if chars.is_empty() {
            proof {
                lemma_blank_rule_keeps_all(self@, Rule::ContainsChars(chars@));
            }
            return self;
        }
        self.keep(Constraint::ContainsChars(chars_of(chars)))
    }

    /// Keeps the words that hold no character of `chars`; an empty `chars` keeps all.
    pub fn not_contains_chars(self, chars: &str) -> (r: Self)
        ensures
            r@ == self@.filter(Rule::NotContainsChars(chars@).keeps()),
    {
        if chars.is_empty() {
            proof {
                lemma_blank_rule_keeps_all(self@, Rule::NotContainsChars(chars@));
            }
            return self;
        }
        self.keep(Constraint::NotContainsChars(chars_of(chars)))
    }

    /// Keeps the words that hold, at each slot of `chars` that names a character, that
    /// character; a word too short for such a slot is dropped.
    pub fn positional_contains_chars(self, chars: &[Option<char>]) -> (r: Self)
        ensures
            r@ == self@.filter(Rule::PositionMatch(chars@).keeps()),
    {
        self.keep(Constraint::PositionMatch(slice_to_vec(chars)))
    }

    /// Keeps the words that do not hold, at any slot of `chars` within the word, the character
    /// that the slot names.
    pub fn positional_not_contains_chars(self, chars: &[Option<char>]) -> (r: Self)
        ensures
            r@ == self@.filter(Rule::PositionMismatch(chars@).keeps()),
    {
        self.keep(Constraint::PositionMismatch(slice_to_vec(chars)))
    }

    /// Keeps only the first `n` words that reach this stage.
    pub fn take(self, n: usize) -> (r: Self)
        ensures
            r@ == first_n(self@, n as nat),
    {
        self.push_stage(Stage::Take(n))
    }

    /// The words that pass every stage, in corpus order.
    pub fn apply(self) -> (r: Vec<String>)
        ensures
            r@ == self@,
    {
        run_stages(self.words, &self.stages)
    }
}

/// The words of `dict` of exactly `len` characters.
pub fn filter_by_length(dict: &[String], len: usize) -> (r: Filters<'_>)
    ensures
        r@ == dict@.filter(Rule::Length(len as nat).keeps()),
{
    Filters::new(dict).filter_by_length(len)
}

/// The words of `dict` that begin with `s`.
pub fn starts_with<'a>(dict: &'a [String], s: &str) -> (r: Filters<'a>)
    ensures
        r@ == dict@.filter(Rule::StartsWith(s@).keeps()),
{
    Filters::new(dict).starts_with(s)
}

/// The words of `dict` that end with `s`.
pub fn ends_with<'a>(dict: &'a [String], s: &str) -> (r: Filters<'a>)
    ensures
        r@ == dict@.filter(Rule::EndsWith(s@).keeps()),
{
    Filters::new(dict).ends_with(s)
}

/// The words of `dict` in which `s` stands.
pub fn contains_str<'a>(dict: &'a [String], s: &str) -> (r: Filters<'a>)
    ensures
        r@ == dict@.filter(Rule::ContainsStr(s@).keeps()),
{
    Filters::new(dict).contains_str(s)
}

/// The words of `dict` in which `s` does not stand.
pub fn not_contains_str<'a>(dict: &'a [String], s: &str) -> (r: Filters<'a>)
    ensures
        r@ == dict@.filter(Rule::NotContainsStr(s@).keeps()),
{
    Filters::new(dict).not_contains_str(s)
}

/// The words of `dict` that hold every character of `chars`.
pub fn contains_chars<'a>(dict: &'a [String], chars: &str) -> (r: Filters<'a>)
    ensures
        r@ == dict@.filter(Rule::ContainsChars(chars@).keeps()),
{
    Filters::new(dict).contains_chars(chars)
}

/// The words of `dict` that hold no character of `chars`.
pub fn not_contains_chars<'a>(dict: &'a [String], chars: &str) -> (r: Filters<'a>)
    ensures
        r@ == dict@.filter(Rule::NotContainsChars(chars@).keeps()),
{
    Filters::new(dict).not_contains_chars(chars)
}

/// The words of `dict` that hold the characters that `chars` names at its slots.
pub fn positional_contains_chars<'a>(dict: &'a [String], chars: &[Option<char>]) -> (r: Filters<'a>)
    ensures
        r@ == dict@.filter(Rule::PositionMatch(chars@).keeps()),
{
    Filters::new(dict).positional_contains_chars(chars)
}

/// The words of `dict` that hold none of the characters that `chars` names at its slots.
pub fn positional_not_contains_chars<'a>(dict: &'a [String], chars: &[Option<char>]) -> (r:
    Filters<'a>)
    ensures
        r@ == dict@.filter(Rule::PositionMismatch(chars@).keeps()),
{
    Filters::new(dict).positional_not_contains_chars(chars)
}

} // verus!
