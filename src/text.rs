//! Character-level views of words and the tests that constraints are built from.
use vstd::prelude::*;
use vstd::std_specs::iter::IteratorSpec;

verus! {

/// The characters of `s`, in order.
pub fn chars_of(s: &str) -> (r: Vec<char>)
    ensures
        r@ == s@,
{
    let mut r: Vec<char> = Vec::new();
    for c in it: s.chars()
        invariant
            r@ == it.seq().take(it.index() as int),
    {
        r.push(c);
    }
    r
}


/// `s` begins `w`.
pub open spec fn has_prefix(w: Seq<char>, s: Seq<char>) -> bool {
    s.len() <= w.len() && w.take(s.len() as int) == s
}

/// `s` ends `w`.
pub open spec fn has_suffix(w: Seq<char>, s: Seq<char>) -> bool {
    s.len() <= w.len() && w.skip(w.len() - s.len()) == s
}

/// `s` stands in `w` from position `i` on.
pub open spec fn occurs_at(w: Seq<char>, s: Seq<char>, i: int) -> bool {
    0 <= i && i + s.len() <= w.len() && w.subrange(i, i + s.len()) == s
}

/// `s` stands somewhere in `w`.
pub open spec fn has_substring(w: Seq<char>, s: Seq<char>) -> bool {
    exists|i: int| occurs_at(w, s, i)
}

/// Every character of `cs` occurs in `w`.
pub open spec fn has_all(w: Seq<char>, cs: Seq<char>) -> bool {
    forall|i: int| 0 <= i < cs.len() ==> w.contains(cs[i])
}

/// No character of `cs` occurs in `w`.
pub open spec fn has_none(w: Seq<char>, cs: Seq<char>) -> bool {
    forall|i: int| 0 <= i < cs.len() ==> !w.contains(cs[i])
}

/// Each slot of `p` that names a character lies within `w` and holds that character.
pub open spec fn fills_slots(w: Seq<char>, p: Seq<Option<char>>) -> bool {
    forall|i: int| 0 <= i < p.len() && p[i] is Some ==> i < w.len() && p[i] == Some(w[i])
}

/// No slot of `p` that lies within `w` names the character that `w` holds there.
pub open spec fn avoids_slots(w: Seq<char>, p: Seq<Option<char>>) -> bool {
    forall|i: int| 0 <= i < p.len() && i < w.len() ==> p[i] != Some(w[i])
}

/// Whether `s` stands in `w` from position `i` on.
pub fn matches_at(w: &Vec<char>, s: &Vec<char>, i: usize) -> (r: bool)
    ensures
        r == occurs_at(w@, s@, i as int),
{
    if i > w.len() || s.len() > w.len() - i {
        return false;
    }
    let mut j: usize = 0;
    while j < s.len()
        invariant
            i + s.len() <= w.len(),
            j <= s.len(),
            forall|k: int| 0 <= k < j ==> w@[i + k] == s@[k],
        decreases s.len() - j,
    {
        if w[i + j] != s[j] {
            return false;
        }
        j = j + 1;
    }
    assert(w@.subrange(i as int, i + s.len()) =~= s@);
    true
}

/// Whether `w` begins with `s`.
pub fn starts_with_chars(w: &Vec<char>, s: &Vec<char>) -> (r: bool)
    ensures
        r == has_prefix(w@, s@),
{
    let r = matches_at(w, s, 0);
    proof {
        if s@.len() <= w@.len() {
            assert(w@.subrange(0, s@.len() as int) =~= w@.take(s@.len() as int));
        }
    }
    r
}

/// Whether `w` ends with `s`.
pub fn ends_with_chars(w: &Vec<char>, s: &Vec<char>) -> (r: bool)
    ensures
        r == has_suffix(w@, s@),
{
    if s.len() > w.len() {
        return false;
    }
    let r = matches_at(w, s, w.len() - s.len());
    assert(w@.subrange(w@.len() - s@.len(), w@.len() as int) =~= w@.skip(w@.len() - s@.len()));
    r
}

/// Whether `s` stands anywhere in `w`.
pub fn contains_chars_seq(w: &Vec<char>, s: &Vec<char>) -> (r: bool)
    ensures
        r == has_substring(w@, s@),
{
    if s.len() > w.len() {
        return false;
    }
    let last = w.len() - s.len();
    let mut i: usize = 0;
    loop
        invariant
            last == w@.len() - s@.len(),
            i <= last,
            forall|k: int| 0 <= k < i ==> !occurs_at(w@, s@, k),
        decreases last - i,
    {
        if matches_at(w, s, i) {
            return true;
        }
        if i == last {
            return false;
        }
        i = i + 1;
    }
}

/// Whether `c` occurs in `w`.
pub fn contains_char(w: &Vec<char>, c: char) -> (r: bool)
    ensures
        r == w@.contains(c),
{
    let mut i: usize = 0;
    while i < w.len()
        invariant
            i <= w.len(),
            forall|k: int| 0 <= k < i ==> w@[k] != c,
        decreases w.len() - i,
    {
        if w[i] == c {
            return true;
        }
        i = i + 1;
    }
    false
}

} // verus!
