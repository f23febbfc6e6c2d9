//! Constraints on words, and a pipeline that applies an ordered list of them to a corpus in one
//! pass: each word is tested against the stages in the order they were attached, and a word is
//! dropped at the first stage that rejects it.
use vstd::prelude::*;

use crate::text::{
    avoids_slots, chars_of, contains_char, contains_chars_seq, ends_with_chars, fills_slots,
    has_all, has_none, has_prefix, has_substring, has_suffix, occurs_at, starts_with_chars,
};

verus! {

/// What a constraint asks of a word, over its characters.
pub enum Rule {
    /// The word has exactly this many characters.
    Length(nat),
    /// The word begins with this text.
    StartsWith(Seq<char>),
    /// The word ends with this text.
    EndsWith(Seq<char>),
    /// This text stands somewhere in the word.
    ContainsStr(Seq<char>),
    /// This text stands nowhere in the word; an empty text asks nothing.
    NotContainsStr(Seq<char>),
    /// Every one of these characters occurs in the word.
    ContainsChars(Seq<char>),
    /// None of these characters occurs in the word.
    NotContainsChars(Seq<char>),
    /// Each given slot holds its character; a slot past the end of the word rejects it.
    PositionMatch(Seq<Option<char>>),
    /// No given slot within the word holds its character.
    PositionMismatch(Seq<Option<char>>),
}

impl Rule {
    pub open spec fn holds(self, w: Seq<char>) -> bool {
        match self {
            Rule::Length(n) => w.len() == n,
            Rule::StartsWith(s) => has_prefix(w, s),
            Rule::EndsWith(s) => has_suffix(w, s),
            Rule::ContainsStr(s) => has_substring(w, s),
            Rule::NotContainsStr(s) => s.len() == 0 || !has_substring(w, s),
            Rule::ContainsChars(cs) => has_all(w, cs),
            Rule::NotContainsChars(cs) => has_none(w, cs),
            Rule::PositionMatch(p) => fills_slots(w, p),
            Rule::PositionMismatch(p) => avoids_slots(w, p),
        }
    }

    /// The test that a filter by this rule applies to each word.
    pub open spec fn keeps(self) -> spec_fn(String) -> bool {
        |w: String| self.holds(w@)
    }

    /// The rule's text or character set is empty: it then asks nothing of a word.
    pub open spec fn is_blank(self) -> bool {
        match self {
            Rule::StartsWith(s) => s.len() == 0,
            Rule::EndsWith(s) => s.len() == 0,
            Rule::ContainsStr(s) => s.len() == 0,
            Rule::NotContainsStr(s) => s.len() == 0,
            Rule::ContainsChars(cs) => cs.len() == 0,
            Rule::NotContainsChars(cs) => cs.len() == 0,
            Rule::PositionMatch(p) => p.len() == 0,
            Rule::PositionMismatch(p) => p.len() == 0,
            Rule::Length(_) => false,
        }
    }
}

/// A constraint that a word must satisfy to remain a candidate.
#[derive(Debug)]
pub enum Constraint {
    Length(usize),
    StartsWith(Vec<char>),
    EndsWith(Vec<char>),
    ContainsStr(Vec<char>),
    NotContainsStr(Vec<char>),
    ContainsChars(Vec<char>),
    NotContainsChars(Vec<char>),
    PositionMatch(Vec<Option<char>>),
    PositionMismatch(Vec<Option<char>>),
}

impl View for Constraint {
    type V = Rule;

    open spec fn view(&self) -> Rule {
        match self {
            Constraint::Length(n) => Rule::Length(*n as nat),
            Constraint::StartsWith(s) => Rule::StartsWith(s@),
            Constraint::EndsWith(s) => Rule::EndsWith(s@),
            Constraint::ContainsStr(s) => Rule::ContainsStr(s@),
            Constraint::NotContainsStr(s) => Rule::NotContainsStr(s@),
            Constraint::ContainsChars(cs) => Rule::ContainsChars(cs@),
            Constraint::NotContainsChars(cs) => Rule::NotContainsChars(cs@),
            Constraint::PositionMatch(p) => Rule::PositionMatch(p@),
            Constraint::PositionMismatch(p) => Rule::PositionMismatch(p@),
        }
    }
}

/// Whether every character of `cs` occurs in `w`.
fn contains_all(w: &Vec<char>, cs: &Vec<char>) -> (r: bool)
    ensures
        r == has_all(w@, cs@),
{
    let mut i: usize = 0;
    while i < cs.len()
        invariant
            i <= cs.len(),
            forall|k: int| 0 <= k < i ==> w@.contains(cs@[k]),
        decreases cs.len() - i,
    {
        if !contains_char(w, cs[i]) {
            return false;
        }
        i = i + 1;
    }
    true
}

/// Whether no character of `cs` occurs in `w`.
fn contains_none(w: &Vec<char>, cs: &Vec<char>) -> (r: bool)
    ensures
        r == has_none(w@, cs@),
{
    let mut i: usize = 0;
    while i < cs.len()
        invariant
            i <= cs.len(),
            forall|k: int| 0 <= k < i ==> !w@.contains(cs@[k]),
        decreases cs.len() - i,
    {
        if contains_char(w, cs[i]) {
            return false;
        }
        i = i + 1;
    }
    true
}

/// Whether every given slot of `p` lies within `w` and holds its character.
fn slots_match(w: &Vec<char>, p: &Vec<Option<char>>) -> (r: bool)
    ensures
        r == fills_slots(w@, p@),
{
    let mut i: usize = 0;
    while i < p.len()
        invariant
            i <= p.len(),
            forall|k: int|
                0 <= k < i && p@[k] is Some ==> k < w@.len() && p@[k] == Some(w@[k]),
        decreases p.len() - i,
    {
        if let Some(c) = p[i] {
            if i >= w.len() || w[i] != c {
                return false;
            }
        }
        i = i + 1;
    }
    true
}

/// Whether no given slot of `p` that lies within `w` holds its character.
fn slots_differ(w: &Vec<char>, p: &Vec<Option<char>>) -> (r: bool)
    ensures
        r == avoids_slots(w@, p@),
{
    let mut i: usize = 0;
    while i < p.len()
        invariant
            i <= p.len(),
            forall|k: int|
                0 <= k < i && k < w@.len() ==> p@[k] != Some(w@[k]),
        decreases p.len() - i,
    {
        if let Some(c) = p[i] {
            if i < w.len() && w[i] == c {
                return false;
            }
        }
        i = i + 1;
    }
    true
}

impl Constraint {
    /// Whether the word with characters `w` satisfies this constraint.
    pub fn check(&self, w: &Vec<char>) -> (r: bool)
        ensures
            r == self@.holds(w@),
    {
        match self {
            Constraint::Length(n) => w.len() == *n,
            Constraint::StartsWith(s) => starts_with_chars(w, s),
            Constraint::EndsWith(s) => ends_with_chars(w, s),
            Constraint::ContainsStr(s) => contains_chars_seq(w, s),
            Constraint::NotContainsStr(s) => s.len() == 0 || !contains_chars_seq(w, s),
            Constraint::ContainsChars(cs) => contains_all(w, cs),
            Constraint::NotContainsChars(cs) => contains_none(w, cs),
            Constraint::PositionMatch(p) => slots_match(w, p),
            Constraint::PositionMismatch(p) => slots_differ(w, p),
        }
    }
}

/// A filter that every word passes returns its input unchanged.
proof fn lemma_filter_keeps_all(words: Seq<String>, keep: spec_fn(String) -> bool)
    requires
        forall|i: int| 0 <= i < words.len() ==> keep(words[i]),
    ensures
        words.filter(keep) == words,
    decreases words.len(),
{
    reveal(Seq::filter);
    if words.len() > 0 {
        lemma_filter_keeps_all(words.drop_last(), keep);
        assert(words.drop_last().push(words.last()) =~= words);
    }
}

/// A constraint whose text, character set or pattern is empty keeps every word: filtering a
/// corpus by it gives the corpus back.
pub proof fn lemma_blank_rule_keeps_all(words: Seq<String>, rule: Rule)
    requires
        rule.is_blank(),
    ensures
        words.filter(rule.keeps()) == words,
{
    assert forall|i: int| 0 <= i < words.len() implies #[trigger] (rule.keeps())(words[i]) by {
        let w = words[i]@;
        match rule {
            Rule::StartsWith(s) => assert(w.take(0) =~= s),
            Rule::EndsWith(s) => assert(w.skip(w.len() as int) =~= s),
            Rule::ContainsStr(s) => {
                assert(w.subrange(0, 0) =~= s);
                assert(occurs_at(w, s, 0));
            },
            _ => {},
        }
    }
    lemma_filter_keeps_all(words, rule.keeps());
}

/// Filtering again by a constraint that every remaining word satisfies changes nothing.
pub proof fn lemma_filter_idempotent(words: Seq<String>, rule: Rule)
    ensures
        words.filter(rule.keeps()).filter(rule.keeps()) == words.filter(rule.keeps()),
{
    broadcast use Seq::lemma_filter_pred;

    lemma_filter_keeps_all(words.filter(rule.keeps()), rule.keeps());
}

/// One stage of a pipeline: keep the words that satisfy a constraint, or keep only the first
/// `n` words that reach it.
#[derive(Debug)]
pub enum Stage {
    Keep(Constraint),
    Take(usize),
}

/// The first `n` words of `words`, or all of them where there are fewer.
pub open spec fn first_n(words: Seq<String>, n: nat) -> Seq<String> {
    if n < words.len() {
        words.take(n as int)
    } else {
        words
    }
}

/// The words of `words` that stage `st` lets through.
pub open spec fn step(words: Seq<String>, st: Stage) -> Seq<String> {
    match st {
        Stage::Keep(c) => words.filter(c@.keeps()),
        Stage::Take(n) => first_n(words, n as nat),
    }
}

/// The words of `words` that remain after the stages `stages`, applied in order.
pub open spec fn run(words: Seq<String>, stages: Seq<Stage>) -> Seq<String>
    decreases stages.len(),
{
    if stages.len() == 0 {
        words
    } else {
        step(run(words, stages.drop_last()), stages.last())
    }
}

/// Running one stage more is running that stage on what the others left.
pub proof fn lemma_run_push(words: Seq<String>, stages: Seq<Stage>, st: Stage)
    ensures
        run(words, stages.push(st)) == step(run(words, stages), st),
{
    assert(stages.push(st).drop_last() =~= stages);
}

/// Running the first `j + 1` stages is running stage `j` on what the first `j` left.
proof fn lemma_run_prefix(words: Seq<String>, stages: Seq<Stage>, j: int)
    requires
        0 <= j < stages.len(),
    ensures
        run(words, stages.take(j + 1)) == step(run(words, stages.take(j)), stages[j]),
{
    assert(stages.take(j + 1).drop_last() =~= stages.take(j));
}

/// A filter of a sequence with one more word: that word is kept after the others, or dropped.
proof fn lemma_filter_push(words: Seq<String>, w: String, keep: spec_fn(String) -> bool)
    ensures
        words.push(w).filter(keep) == (if keep(w) {
            words.filter(keep).push(w)
        } else {
            words.filter(keep)
        }),
{
    reveal(Seq::filter);
    assert(words.push(w).drop_last() =~= words);
}

/// A stage never lets through more words than it is given.
proof fn lemma_run_len(words: Seq<String>, stages: Seq<Stage>)
    ensures
        run(words, stages).len() <= words.len(),
    decreases stages.len(),
{
    broadcast use Seq::lemma_filter_len;

    if stages.len() > 0 {
        lemma_run_len(words, stages.drop_last());
    }
}

/// Stages that give the same words for two inputs give the same words after further stages.
proof fn lemma_run_same_from(a: Seq<String>, b: Seq<String>, stages: Seq<Stage>, j: int, k: int)
    requires
        0 <= j <= k <= stages.len(),
        run(a, stages.take(j)) == run(b, stages.take(j)),
    ensures
        run(a, stages.take(k)) == run(b, stages.take(k)),
    decreases k - j,
{
    if j < k {
        lemma_run_prefix(a, stages, j);
        lemma_run_prefix(b, stages, j);
        lemma_run_same_from(a, b, stages, j + 1, k);
    }
}

/// A copy of `words`.
pub(crate) fn copy_words(words: &[String]) -> (r: Vec<String>)
    ensures
        r@ == words@,
{
    let mut r: Vec<String> = Vec::new();
    let mut i: usize = 0;
    while i < words.len()
        invariant
            i <= words@.len(),
            r@ == words@.take(i as int),
        decreases words@.len() - i,
    {
        r.push(words[i].clone());
        i = i + 1;
        assert(r@ =~= words@.take(i as int));
    }
    assert(words@.take(words@.len() as int) =~= words@);
    r
}

/// The words of `words` that pass all of `stages`, in their order. Each word goes through the
/// stages in order and is dropped at the first one that rejects it; a `Take` stage counts the
/// words that reach it.
pub fn run_stages(words: &[String], stages: &Vec<Stage>) -> (r: Vec<String>)
    ensures
        r@ == run(words@, stages@),
{
    let ghost st = stages@;
    let mut reached: Vec<usize> = Vec::new();
    let mut j: usize = 0;
    while j < stages.len()
        invariant
            j <= stages.len(),
            reached.len() == j,
            forall|k: int| 0 <= k < j ==> reached[k] == 0,
        decreases stages.len() - j,
    {
        reached.push(0);
        j = j + 1;
    }
    assert forall|k: int| 0 <= k < st.len() implies reached[k] == run(
        words@.take(0),
        st.take(k),
    ).len() by {
        lemma_run_len(words@.take(0), st.take(k));
    }
    let mut out: Vec<String> = Vec::new();
    proof {
        lemma_run_len(words@.take(0), st);
        assert(out@ =~= run(words@.take(0), st));
    }
    let mut i: usize = 0;
    while i < words.len()
        invariant
            i <= words.len(),
            st == stages@,
            reached.len() == st.len(),
            out@ == run(words@.take(i as int), st),
            forall|k: int|
                0 <= k < st.len() ==> reached[k] == run(words@.take(i as int), st.take(k)).len(),
        decreases words.len() - i,
    {
        let chars = chars_of(words[i].as_str());
        let ghost w = words@[i as int];
        let ghost pre = words@.take(i as int);
        let ghost post = words@.take(i + 1);
        assert(post =~= pre.push(w));
        let mut alive = true;
        let mut j: usize = 0;
        while j < stages.len() && alive
            invariant
                j <= st.len(),
                i < words.len(),
                st == stages@,
                chars@ == w@,
                pre.len() == i,
                post == pre.push(w),
                reached.len() == st.len(),
                alive ==> run(post, st.take(j as int)) == run(pre, st.take(j as int)).push(w),
                !alive ==> run(post, st.take(j as int)) == run(pre, st.take(j as int)),
                forall|k: int| 0 <= k < j ==> reached[k] == run(post, st.take(k)).len(),
                forall|k: int| j <= k < st.len() ==> reached[k] == run(pre, st.take(k)).len(),
            decreases st.len() - j,
        {
            let ghost before = run(pre, st.take(j as int));
            proof {
                lemma_run_prefix(pre, st, j as int);
                lemma_run_prefix(post, st, j as int);
                lemma_run_len(pre, st.take(j as int));
            }
            let count = reached[j];
            reached[j] = count + 1;
            match &stages[j] {
                Stage::Keep(c) => {
                    proof {
                        lemma_filter_push(before, w, c@.keeps());
                    }
                    if !c.check(&chars) {
                        alive = false;
                    }
                },
                Stage::Take(n) => {
                    if count >= *n {
                        alive = false;
                        assert(before.push(w).take(*n as int) =~= before.take(*n as int));
                    }
                },
            }
            j = j + 1;
        }
        proof {
            if !alive {
                assert forall|k: int| j <= k <= st.len() implies run(post, st.take(k)) == run(
                    pre,
                    st.take(k),
                ) by {
                    lemma_run_same_from(post, pre, st, j as int, k);
                }
            }
            assert(st.take(st.len() as int) =~= st);
        }
        if alive {
            out.push(words[i].clone());
        }
        i = i + 1;
    }
    assert(words@.take(words@.len() as int) =~= words@);
    out
}

} // verus!
