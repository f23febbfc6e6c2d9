//! Letter-frequency models of a corpus, the score they give a word, and the ranking of a corpus
//! by that score.
use vstd::prelude::*;

use crate::char_map::CharMap;
use crate::text::chars_of;

verus! {

/// The number of positions a positional model keeps per character.
pub const POSITIONS: usize = 64;

/// For each character, how often it occurs over a corpus.
pub type CharWeights = CharMap<usize>;

/// For each character, how often it occurs at each position over a corpus.
pub type CharPositionWeights = CharMap<[usize; POSITIONS]>;

/// A frequency model of a corpus.
#[derive(Debug)]
pub enum WeightsType {
    CharWeights(CharWeights),
    CharPositionWeights(CharPositionWeights),
}

/// How many times `c` occurs in `w`.
pub open spec fn occurrences(w: Seq<char>, c: char) -> nat
    decreases w.len(),
{
    if w.len() == 0 {
        0
    } else {
        occurrences(w.drop_last(), c) + if w.last() == c {
            1nat
        } else {
            0nat
        }
    }
}

/// How many times `c` occurs over all the words of `words`.
pub open spec fn char_total(words: Seq<String>, c: char) -> nat
    decreases words.len(),
{
    if words.len() == 0 {
        0
    } else {
        char_total(words.drop_last(), c) + occurrences(words.last()@, c)
    }
}

/// How many words of `words` hold `c` at position `i`.
pub open spec fn position_total(words: Seq<String>, c: char, i: int) -> nat
    decreases words.len(),
{
    if words.len() == 0 {
        0
    } else {
        let w = words.last()@;
        position_total(words.drop_last(), c, i) + if 0 <= i < w.len() && w[i] == c {
            1nat
        } else {
            0nat
        }
    }
}

/// The number of characters over all the words of `words`.
pub open spec fn total_len(words: Seq<String>) -> nat
    decreases words.len(),
{
    if words.len() == 0 {
        0
    } else {
        total_len(words.drop_last()) + words.last()@.len()
    }
}

/// `m` maps each character that occurs in `words` to its number of occurrences, and no other.
pub open spec fn is_char_model(m: Map<char, usize>, words: Seq<String>) -> bool {
    forall|c: char|
        #![trigger m.contains_key(c)]
        #![trigger char_total(words, c)]
        (m.contains_key(c) <==> char_total(words, c) > 0) && (m.contains_key(c) ==> m[c]
            == char_total(words, c))
}

/// `m` maps each character that occurs in `words` to the number of words that hold it at each
/// position, and no other.
pub open spec fn is_position_model(m: Map<char, [usize; POSITIONS]>, words: Seq<String>) -> bool {
    &&& forall|c: char|
        #![trigger m.contains_key(c)]
        #![trigger char_total(words, c)]
        m.contains_key(c) <==> char_total(words, c) > 0
    &&& forall|c: char, i: int|
        m.contains_key(c) && 0 <= i < POSITIONS ==> #[trigger] m[c]@[i] == position_total(
            words,
            c,
            i,
        )
}

proof fn lemma_occurrences_le(w: Seq<char>, c: char)
    ensures
        occurrences(w, c) <= w.len(),
    decreases w.len(),
{
    if w.len() > 0 {
        lemma_occurrences_le(w.drop_last(), c);
    }
}

proof fn lemma_occurrences_zero(w: Seq<char>, c: char, i: int)
    requires
        occurrences(w, c) == 0,
        0 <= i < w.len(),
    ensures
        w[i] != c,
    decreases w.len(),
{
    if i < w.len() - 1 {
        lemma_occurrences_zero(w.drop_last(), c, i);
    }
}

proof fn lemma_char_total_le(words: Seq<String>, c: char)
    ensures
        char_total(words, c) <= total_len(words),
    decreases words.len(),
{
    if words.len() > 0 {
        lemma_char_total_le(words.drop_last(), c);
        lemma_occurrences_le(words.last()@, c);
    }
}

proof fn lemma_position_total_le(words: Seq<String>, c: char, i: int)
    ensures
        position_total(words, c, i) <= words.len(),
    decreases words.len(),
{
    if words.len() > 0 {
        lemma_position_total_le(words.drop_last(), c, i);
    }
}

proof fn lemma_position_total_zero(words: Seq<String>, c: char, i: int)
    requires
        char_total(words, c) == 0,
    ensures
        position_total(words, c, i) == 0,
    decreases words.len(),
{
    if words.len() > 0 {
        lemma_position_total_zero(words.drop_last(), c, i);
        let w = words.last()@;
        if 0 <= i < w.len() {
            lemma_occurrences_zero(w, c, i);
        }
    }
}

proof fn lemma_total_len_prefix(words: Seq<String>, i: int)
    requires
        0 <= i <= words.len(),
    ensures
        total_len(words.take(i)) <= total_len(words),
    decreases words.len(),
{
    if i < words.len() {
        assert(words.drop_last().take(i) =~= words.take(i));
        lemma_total_len_prefix(words.drop_last(), i);
    } else {
        assert(words.take(i) =~= words);
    }
}

/// Counts every character of `dict`, over all its occurrences.
pub fn get_char_weights(dict: &[String]) -> (r: WeightsType)
    requires
        total_len(dict@) <= usize::MAX,
    ensures
        r matches WeightsType::CharWeights(m) && is_char_model(m@, dict@),
{
    WeightsType::CharWeights(count_chars(dict))
}

/// For each character of `dict`, the number of its occurrences.
pub(crate) fn count_chars(dict: &[String]) -> (r: CharWeights)
    requires
        total_len(dict@) <= usize::MAX,
    ensures
        is_char_model(r@, dict@),
{
    let mut freq: CharWeights = CharMap::new();
    let mut i: usize = 0;
    while i < dict.len()
        invariant
            i <= dict@.len(),
            total_len(dict@) <= usize::MAX,
            is_char_model(freq@, dict@.take(i as int)),
        decreases dict@.len() - i,
    {
        let ghost done = dict@.take(i as int);
        let chars = chars_of(dict[i].as_str());
        proof {
            lemma_total_len_prefix(dict@, i + 1);
            assert(dict@.take(i + 1).drop_last() =~= done);
            assert(dict@.take(i + 1).last() == dict@[i as int]);
            assert(total_len(done) + chars@.len() <= usize::MAX);
        }
        let mut j: usize = 0;
        while j < chars.len()
            invariant
                j <= chars@.len(),
                chars@ == dict@[i as int]@,
                done == dict@.take(i as int),
                dict@.take(i + 1).drop_last() == done,
                total_len(done) + chars@.len() <= usize::MAX,
                forall|c: char|
                    #![trigger freq@.contains_key(c)]
                    (freq@.contains_key(c) <==> char_total(done, c) + occurrences(
                        chars@.take(j as int),
                        c,
                    ) > 0) && (freq@.contains_key(c) ==> freq@[c] == char_total(done, c)
                        + occurrences(chars@.take(j as int), c)),
            decreases chars@.len() - j,
        {
            let c = chars[j];
            proof {
                assert(chars@.take(j + 1).drop_last() =~= chars@.take(j as int));
                lemma_char_total_le(done, c);
                lemma_occurrences_le(chars@.take(j as int), c);
            }
            let cur: usize = match freq.get(&c) {
                Some(n) => *n,
                None => 0,
            };
            freq.insert(c, cur + 1);
            j = j + 1;
        }
        proof {
            assert(chars@.take(chars@.len() as int) =~= chars@);
            assert forall|c: char| #[trigger] char_total(dict@.take(i + 1), c)
                == char_total(done, c)
                + occurrences(chars@, c) by {}
        }
        i = i + 1;
    }
    assert(dict@.take(dict@.len() as int) =~= dict@);
    freq
}

/// Counts every character of `dict` at each position at which it occurs.
pub fn get_char_position_weights(dict: &[String]) -> (r: WeightsType)
    requires
        forall|i: int| 0 <= i < dict@.len() ==> #[trigger] dict@[i]@.len() <= POSITIONS,
    ensures
        r matches WeightsType::CharPositionWeights(m) && is_position_model(m@, dict@),
{
    let mut freq: CharPositionWeights = CharMap::new();
    let n = dict.len();
    let mut i: usize = 0;
    while i < n
        invariant
            i <= n == dict@.len(),
            forall|i: int| 0 <= i < dict@.len() ==> #[trigger] dict@[i]@.len() <= POSITIONS,
            is_position_model(freq@, dict@.take(i as int)),
        decreases dict@.len() - i,
    {
        let ghost done = dict@.take(i as int);
        let chars = chars_of(dict[i].as_str());
        proof {
            assert(dict@.take(i + 1).drop_last() =~= done);
            assert(dict@.take(i + 1).last() == dict@[i as int]);
        }
        let mut j: usize = 0;
        while j < chars.len()
            invariant
                j <= chars@.len() <= POSITIONS,
                i < n == dict@.len(),
                chars@ == dict@[i as int]@,
                done == dict@.take(i as int),
                forall|c: char|
                    #![trigger freq@.contains_key(c)]
                    freq@.contains_key(c) <==> char_total(done, c) + occurrences(
                        chars@.take(j as int),
                        c,
                    ) > 0,
                forall|c: char, p: int|
                    freq@.contains_key(c) && 0 <= p < POSITIONS ==> #[trigger] freq@[c]@[p]
                        == position_total(done, c, p) + if p < j && chars@[p] == c {
                        1nat
                    } else {
                        0nat
                    },
            decreases chars@.len() - j,
        {
            let c = chars[j];
            proof {
                assert(chars@.take(j + 1).drop_last() =~= chars@.take(j as int));
                lemma_position_total_le(done, c, j as int);
            }
            let mut counts: [usize; POSITIONS] = match freq.get(&c) {
                Some(a) => *a,
                None => {
                    proof {
                        assert forall|p: int| 0 <= p < POSITIONS implies position_total(done, c, p)
                            == 0 && !(p < j && chars@[p] == c) by {
                            lemma_position_total_zero(done, c, p);
                            if p < j {
                                lemma_occurrences_zero(chars@.take(j as int), c, p);
                            }
                        }
                    }
                    [0usize; POSITIONS]
                },
            };
            assert(counts@[j as int] == position_total(done, c, j as int));
            counts[j] = counts[j] + 1;
            freq.insert(c, counts);
            j = j + 1;
        }
        proof {
            assert(chars@.take(chars@.len() as int) =~= chars@);
            assert forall|c: char| #[trigger] char_total(dict@.take(i + 1), c)
                == char_total(done, c)
                + occurrences(chars@, c) by {}
            assert forall|c: char, p: int| #[trigger] position_total(dict@.take(i + 1), c, p)
                == position_total(done, c, p) + if 0 <= p < chars@.len() && chars@[p] == c {
                1nat
            } else {
                0nat
            } by {}
        }
        i = i + 1;
    }
    assert(dict@.take(dict@.len() as int) =~= dict@);
    WeightsType::CharPositionWeights(freq)
}

/// The weight that `model` gives character `c` seen first at position `i`: its count, or its
/// count at that position; zero where the model has no entry for it.
pub open spec fn weight(model: WeightsType, c: char, i: int) -> nat {
    match model {
        WeightsType::CharWeights(m) => if m@.contains_key(c) {
            m@[c] as nat
        } else {
            0
        },
        WeightsType::CharPositionWeights(m) => if m@.contains_key(c) && 0 <= i < POSITIONS {
            m@[c]@[i] as nat
        } else {
            0
        },
    }
}

/// The score of `w` under `model`: the sum of the weights of its distinct characters, each
/// taken once, at the position where it first occurs.
pub open spec fn score_of(w: Seq<char>, model: WeightsType) -> nat
    decreases w.len(),
{
    if w.len() == 0 {
        0
    } else {
        let init = w.drop_last();
        score_of(init, model) + if init.contains(w.last()) {
            0nat
        } else {
            weight(model, w.last(), init.len() as int)
        }
    }
}

proof fn lemma_score_prefix_le(w: Seq<char>, model: WeightsType, k: int)
    requires
        0 <= k <= w.len(),
    ensures
        score_of(w.take(k), model) <= score_of(w, model),
    decreases w.len(),
{
    if k < w.len() {
        assert(w.drop_last().take(k) =~= w.take(k));
        lemma_score_prefix_le(w.drop_last(), model, k);
    } else {
        assert(w.take(k) =~= w);
    }
}

/// The weight that `model` gives `c` seen first at position `i`.
fn weight_at(model: &WeightsType, c: char, i: usize) -> (r: usize)
    ensures
        r == weight(*model, c, i as int),
{
    match model {
        WeightsType::CharWeights(m) => match m.get(&c) {
            Some(n) => *n,
            None => 0,
        },
        WeightsType::CharPositionWeights(m) => {
            if i < POSITIONS {
                match m.get(&c) {
                    Some(counts) => counts[i],
                    None => 0,
                }
            } else {
                0
            }
        },
    }
}

/// Whether the character at position `i` of `w` already occurs before it.
fn seen_before(w: &Vec<char>, i: usize) -> (r: bool)
    requires
        i < w@.len(),
    ensures
        r == w@.take(i as int).contains(w@[i as int]),
{
    let mut j: usize = 0;
    while j < i
        invariant
            j <= i < w@.len(),
            forall|k: int| 0 <= k < j ==> w@[k] != w@[i as int],
        decreases i - j,
    {
        if w[j] == w[i] {
            assert(w@.take(i as int)[j as int] == w@[i as int]);
            return true;
        }
        j = j + 1;
    }
    false
}

/// The score of the word with characters `w` under `model`.
fn score_chars(w: &Vec<char>, model: &WeightsType) -> (r: usize)
    requires
        score_of(w@, *model) <= usize::MAX,
    ensures
        r == score_of(w@, *model),
{
    let mut total: usize = 0;
    let mut i: usize = 0;
    while i < w.len()
        invariant
            i <= w@.len(),
            score_of(w@, *model) <= usize::MAX,
            total == score_of(w@.take(i as int), *model),
        decreases w@.len() - i,
    {
        proof {
            assert(w@.take(i + 1).drop_last() =~= w@.take(i as int));
            lemma_score_prefix_le(w@, *model, i + 1);
        }
        if !seen_before(w, i) {
            total = total + weight_at(model, w[i], i);
        }
        i = i + 1;
    }
    assert(w@.take(w@.len() as int) =~= w@);
    total
}

/// The score of `word` under `freq`: the weights of its distinct characters, each counted once.
pub fn score(word: &String, freq: &WeightsType) -> (r: usize)
    requires
        score_of(word@, *freq) <= usize::MAX,
    ensures
        r == score_of(word@, *freq),
{
    score_chars(&chars_of(word.as_str()), freq)
}

/// Under scores `s`, word `i` ranks before word `j`: it scores higher, or the same and comes
/// earlier in the corpus.
pub open spec fn ranks_before(s: Seq<int>, i: int, j: int) -> bool {
    s[i] > s[j] || (s[i] == s[j] && i < j)
}

/// `p` lists, best first, the positions of the `p.len()` best-ranked words under scores `s`.
pub open spec fn is_top(s: Seq<int>, p: Seq<int>) -> bool {
    &&& forall|a: int| 0 <= a < p.len() ==> 0 <= #[trigger] p[a] < s.len()
    &&& forall|a: int, b: int|
        0 <= a < b < p.len() ==> ranks_before(s, #[trigger] p[a], #[trigger] p[b])
    &&& forall|a: int, j: int|
        0 <= a < p.len() && 0 <= j < s.len() && !p.contains(j) ==> #[trigger] ranks_before(
            s,
            p[a],
            j,
        )
}

/// The scores of the words of `words` under `model`, in corpus order.
pub open spec fn word_scores(words: Seq<String>, model: WeightsType) -> Seq<int> {
    Seq::new(words.len(), |i: int| score_of(words[i]@, model) as int)
}

/// `r` holds, best first, the `r.len()` best-ranked words of `words` under scores `s`: by
/// descending score, and in corpus order where scores tie.
pub open spec fn is_ranking(s: Seq<int>, words: Seq<String>, r: Seq<String>) -> bool {
    exists|p: Seq<int>|
        #[trigger] is_top(s, p) && p.len() == r.len() && forall|a: int|
            0 <= a < p.len() ==> r[a] == words[p[a]]
}

/// The score of `w` when each character weighs its number of occurrences over `words`.
pub open spec fn corpus_score(w: Seq<char>, words: Seq<String>) -> nat
    decreases w.len(),
{
    if w.len() == 0 {
        0
    } else {
        let init = w.drop_last();
        corpus_score(init, words) + if init.contains(w.last()) {
            0nat
        } else {
            char_total(words, w.last())
        }
    }
}

/// The distinct characters of `w`, in the order of their first occurrences.
spec fn firsts(w: Seq<char>) -> Seq<char>
    decreases w.len(),
{
    if w.len() == 0 {
        Seq::empty()
    } else {
        let init = w.drop_last();
        if init.contains(w.last()) {
            firsts(init)
        } else {
            firsts(init).push(w.last())
        }
    }
}

/// The occurrences over `words` of the characters of `u`, added up.
spec fn sum_totals(words: Seq<String>, u: Seq<char>) -> nat
    decreases u.len(),
{
    if u.len() == 0 {
        0
    } else {
        sum_totals(words, u.drop_last()) + char_total(words, u.last())
    }
}

/// The occurrences in `x` of the characters of `u`, added up.
spec fn sum_occurrences(x: Seq<char>, u: Seq<char>) -> nat
    decreases u.len(),
{
    if u.len() == 0 {
        0
    } else {
        sum_occurrences(x, u.drop_last()) + occurrences(x, u.last())
    }
}

/// How many entries of `u` are `d`.
spec fn count_of(u: Seq<char>, d: char) -> nat
    decreases u.len(),
{
    if u.len() == 0 {
        0
    } else {
        count_of(u.drop_last(), d) + if u.last() == d {
            1nat
        } else {
            0nat
        }
    }
}

proof fn lemma_firsts(w: Seq<char>)
    ensures
        firsts(w).no_duplicates(),
        forall|c: char| firsts(w).contains(c) <==> w.contains(c),
    decreases w.len(),
{
    if w.len() > 0 {
        let init = w.drop_last();
        lemma_firsts(init);
        assert forall|c: char| w.contains(c) <==> init.contains(c) || c == w.last() by {
            if w.contains(c) && c != w.last() {
                let k = choose|k: int| 0 <= k < w.len() && w[k] == c;
                assert(init[k] == c);
            }
            if init.contains(c) {
                let k = choose|k: int| 0 <= k < init.len() && init[k] == c;
                assert(w[k] == c);
            }
            if c == w.last() {
                assert(w[w.len() - 1] == c);
            }
        }
        if !init.contains(w.last()) {
            let f = firsts(init);
            assert forall|c: char|
                f.push(w.last()).contains(c) <==> f.contains(c) || c == w.last() by {
                if f.push(w.last()).contains(c) && c != w.last() {
                    let k = choose|k: int| 0 <= k < f.len() + 1 && f.push(w.last())[k] == c;
                    assert(f[k] == c);
                }
                if f.contains(c) {
                    let k = choose|k: int| 0 <= k < f.len() && f[k] == c;
                    assert(f.push(w.last())[k] == c);
                }
                if c == w.last() {
                    assert(f.push(w.last())[f.len() as int] == c);
                }
            }
        }
    }
}

proof fn lemma_corpus_score_firsts(w: Seq<char>, words: Seq<String>)
    ensures
        corpus_score(w, words) == sum_totals(words, firsts(w)),
    decreases w.len(),
{
    if w.len() > 0 {
        lemma_corpus_score_firsts(w.drop_last(), words);
        assert(firsts(w.drop_last()).push(w.last()).drop_last() =~= firsts(w.drop_last()));
    }
}

proof fn lemma_sum_totals_split(words: Seq<String>, u: Seq<char>)
    requires
        words.len() > 0,
    ensures
        sum_totals(words, u) == sum_totals(words.drop_last(), u) + sum_occurrences(
            words.last()@,
            u,
        ),
    decreases u.len(),
{
    if u.len() > 0 {
        lemma_sum_totals_split(words, u.drop_last());
    }
}

proof fn lemma_sum_occurrences_split(x: Seq<char>, u: Seq<char>)
    requires
        x.len() > 0,
    ensures
        sum_occurrences(x, u) == sum_occurrences(x.drop_last(), u) + count_of(u, x.last()),
    decreases u.len(),
{
    if u.len() > 0 {
        lemma_sum_occurrences_split(x, u.drop_last());
    }
}

proof fn lemma_count_of_absent(u: Seq<char>, d: char)
    requires
        !u.contains(d),
    ensures
        count_of(u, d) == 0,
    decreases u.len(),
{
    if u.len() > 0 {
        assert(u[u.len() - 1] == u.last());
        assert forall|k: int| 0 <= k < u.len() - 1 implies u.drop_last()[k] != d by {
            assert(u[k] == u.drop_last()[k]);
        }
        lemma_count_of_absent(u.drop_last(), d);
    }
}

proof fn lemma_count_of_distinct(u: Seq<char>, d: char)
    requires
        u.no_duplicates(),
    ensures
        count_of(u, d) <= 1,
    decreases u.len(),
{
    if u.len() > 0 {
        let init = u.drop_last();
        assert(init.no_duplicates()) by {
            assert forall|i: int, j: int|
                0 <= i < init.len() && 0 <= j < init.len() && i != j implies init[i] != init[j] by {
                assert(u[i] == init[i] && u[j] == init[j]);
            }
        }
        if u.last() == d {
            assert forall|k: int| 0 <= k < init.len() implies init[k] != d by {
                assert(u[k] == init[k]);
                assert(u[u.len() - 1] == d);
            }
            lemma_count_of_absent(init, d);
        } else {
            lemma_count_of_distinct(init, d);
        }
    }
}

proof fn lemma_sum_occurrences_le(x: Seq<char>, u: Seq<char>)
    requires
        u.no_duplicates(),
    ensures
        sum_occurrences(x, u) <= x.len(),
    decreases x.len(),
{
    if x.len() > 0 {
        lemma_sum_occurrences_split(x, u);
        lemma_count_of_distinct(u, x.last());
        lemma_sum_occurrences_le(x.drop_last(), u);
    } else {
        lemma_sum_occurrences_zero(x, u);
    }
}

proof fn lemma_sum_occurrences_zero(x: Seq<char>, u: Seq<char>)
    requires
        x.len() == 0,
    ensures
        sum_occurrences(x, u) == 0,
    decreases u.len(),
{
    if u.len() > 0 {
        lemma_sum_occurrences_zero(x, u.drop_last());
    }
}

proof fn lemma_sum_totals_le(words: Seq<String>, u: Seq<char>)
    requires
        u.no_duplicates(),
    ensures
        sum_totals(words, u) <= total_len(words),
    decreases words.len(),
{
    if words.len() > 0 {
        lemma_sum_totals_split(words, u);
        lemma_sum_occurrences_le(words.last()@, u);
        lemma_sum_totals_le(words.drop_last(), u);
    } else {
        lemma_sum_totals_zero(words, u);
    }
}

proof fn lemma_sum_totals_zero(words: Seq<String>, u: Seq<char>)
    requires
        words.len() == 0,
    ensures
        sum_totals(words, u) == 0,
    decreases u.len(),
{
    if u.len() > 0 {
        lemma_sum_totals_zero(words, u.drop_last());
    }
}

/// Weighing each character by its occurrences over `words`, no word scores more than the
/// number of characters of `words`: each occurrence is counted for at most one of its distinct
/// characters.
pub proof fn lemma_corpus_score_le(w: Seq<char>, words: Seq<String>)
    ensures
        corpus_score(w, words) <= total_len(words),
{
    lemma_firsts(w);
    lemma_corpus_score_firsts(w, words);
    lemma_sum_totals_le(words, firsts(w));
}

/// The scores of the words of `words` when each character weighs its number of occurrences
/// over `words` itself.
pub open spec fn corpus_scores(words: Seq<String>) -> Seq<int> {
    Seq::new(words.len(), |i: int| corpus_score(words[i]@, words) as int)
}

/// Under a character model of `words`, a word scores its `corpus_score`.
pub proof fn lemma_char_model_score(w: Seq<char>, m: CharWeights, words: Seq<String>)
    requires
        is_char_model(m@, words),
    ensures
        score_of(w, WeightsType::CharWeights(m)) == corpus_score(w, words),
    decreases w.len(),
{
    if w.len() > 0 {
        lemma_char_model_score(w.drop_last(), m, words);
        let c = w.last();
        assert(m@.contains_key(c) || char_total(words, c) == 0);
    }
}

/// In a ranking, words of equal score keep their corpus order: the one that comes first in the
/// corpus is listed first.
pub proof fn lemma_ranking_keeps_tie_order(s: Seq<int>, p: Seq<int>, a: int, b: int)
    requires
        is_top(s, p),
        0 <= a < b < p.len(),
        s[p[a]] == s[p[b]],
    ensures
        p[a] < p[b],
{
    assert(ranks_before(s, p[a], p[b]));
}

/// The scores of the words of `dict` under `freq`, in corpus order.
fn word_scores_of(dict: &[String], freq: &WeightsType) -> (r: Vec<usize>)
    requires
        forall|i: int| 0 <= i < dict@.len() ==> score_of(#[trigger] dict@[i]@, *freq) <= usize::MAX,
    ensures
        r@.len() == dict@.len(),
        forall|i: int| 0 <= i < dict@.len() ==> r@[i] == word_scores(dict@, *freq)[i],
{
    let mut r: Vec<usize> = Vec::new();
    let mut i: usize = 0;
    while i < dict.len()
        invariant
            i <= dict@.len(),
            r@.len() == i,
            forall|i: int|
                0 <= i < dict@.len() ==> score_of(#[trigger] dict@[i]@, *freq) <= usize::MAX,
            forall|k: int| 0 <= k < i ==> r@[k] == word_scores(dict@, *freq)[k],
        decreases dict@.len() - i,
    {
        r.push(score(&dict[i], freq));
        i = i + 1;
    }
    r
}

/// The `count` best-scoring words of `dict` under `freq`, best first; where scores tie, the
/// word that comes first in `dict` comes first. Fewer where `dict` holds fewer words.
pub fn most_common(dict: &[String], freq: &WeightsType, count: usize) -> (r: Vec<String>)
    requires
        forall|i: int| 0 <= i < dict@.len() ==> score_of(#[trigger] dict@[i]@, *freq) <= usize::MAX,
    ensures
        r@.len() == if count < dict@.len() {
            count as nat
        } else {
            dict@.len()
        },
        is_ranking(word_scores(dict@, *freq), dict@, r@),
{
    let ghost s = word_scores(dict@, *freq);
    let scores = word_scores_of(dict, freq);
    let n = dict.len();
    let k = if count < n {
        count
    } else {
        n
    };
    let mut rest: Vec<usize> = Vec::new();
    let mut i: usize = 0;
    while i < n
        invariant
            i <= n,
            rest@.len() == i,
            forall|b: int| 0 <= b < i ==> rest@[b] == b,
        decreases n - i,
    {
        rest.push(i);
        i = i + 1;
    }
    let ghost mut p: Seq<int> = Seq::empty();
    let mut out: Vec<String> = Vec::new();
    assert forall|j: int| 0 <= j < n implies p.contains(j) || exists|b: int|
        0 <= b < rest@.len() && #[trigger] rest@[b] == j by {
        assert(rest@[j] == j);
    }
    while out.len() < k
        invariant
            k <= n == dict@.len() == s.len(),
            s == word_scores(dict@, *freq),
            scores@.len() == n,
            forall|i: int| 0 <= i < n ==> scores@[i] == s[i],
            p.len() + rest@.len() == n,
            out@.len() == p.len(),
            out@.len() <= k,
            forall|a: int| 0 <= a < p.len() ==> out@[a] == dict@[#[trigger] p[a]],
            forall|a: int| 0 <= a < p.len() ==> 0 <= #[trigger] p[a] < n,
            forall|b: int| 0 <= b < rest@.len() ==> #[trigger] rest@[b] < n,
            forall|b1: int, b2: int|
                0 <= b1 < b2 < rest@.len() ==> #[trigger] rest@[b1] != #[trigger] rest@[b2],
            forall|j: int|
                0 <= j < n ==> p.contains(j) || exists|b: int|
                    0 <= b < rest@.len() && #[trigger] rest@[b] == j,
            forall|a: int, c: int|
                0 <= a < c < p.len() ==> ranks_before(s, #[trigger] p[a], #[trigger] p[c]),
            forall|a: int, b: int|
                0 <= a < p.len() && 0 <= b < rest@.len() ==> ranks_before(
                    s,
                    #[trigger] p[a],
                    #[trigger] rest@[b] as int,
                ),
        decreases k - out@.len(),
    {
        let mut m: usize = 0;
        let mut b: usize = 1;
        while b < rest.len()
            invariant
                0 < rest@.len(),
                m < b <= rest@.len(),
                scores@.len() == n == s.len(),
                forall|i: int| 0 <= i < n ==> scores@[i] == s[i],
                forall|b: int| 0 <= b < rest@.len() ==> #[trigger] rest@[b] < n,
                forall|b1: int, b2: int|
                    0 <= b1 < b2 < rest@.len() ==> #[trigger] rest@[b1] != #[trigger] rest@[b2],
                forall|c: int|
                    0 <= c < b && c != m ==> ranks_before(
                        s,
                        rest@[m as int] as int,
                        #[trigger] rest@[c] as int,
                    ),
            decreases rest@.len() - b,
        {
            let x = rest[b];
            let y = rest[m];
            if scores[x] > scores[y] || (scores[x] == scores[y] && x < y) {
                m = b;
            }
            b = b + 1;
        }
        let ghost old_rest = rest@;
        let best = rest.remove(m);
        proof {
            assert forall|c: int| 0 <= c < rest@.len() implies ranks_before(
                s,
                best as int,
                #[trigger] rest@[c] as int,
            ) by {
                if c < m {
                    assert(rest@[c] == old_rest[c]);
                } else {
                    assert(rest@[c] == old_rest[c + 1]);
                }
            }
            assert forall|j: int|
                0 <= j < n implies p.push(best as int).contains(j) || exists|b: int|
                0 <= b < rest@.len() && #[trigger] rest@[b] == j by {
                if p.contains(j) {
                    let a = choose|a: int| 0 <= a < p.len() && p[a] == j;
                    assert(p.push(best as int)[a] == j);
                } else if j == best {
                    assert(p.push(best as int)[p.len() as int] == j);
                } else {
                    let b0 = choose|b: int| 0 <= b < old_rest.len() && old_rest[b] == j;
                    if b0 < m {
                        assert(rest@[b0] == j);
                    } else {
                        assert(rest@[b0 - 1] == j);
                    }
                }
            }
            p = p.push(best as int);
        }
        out.push(dict[best].clone());
    }
    proof {
        assert forall|a: int, j: int|
            0 <= a < p.len() && 0 <= j < s.len() && !p.contains(j) implies #[trigger] ranks_before(
                s,
                p[a],
                j,
            ) by {
            let b0 = choose|b: int| 0 <= b < rest@.len() && rest@[b] == j;
        }
        assert(is_top(s, p));
    }
    out
}

} // verus!
