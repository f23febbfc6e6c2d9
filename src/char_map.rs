//! A small map keyed by characters, kept as a vector of entries. A key's value is the one in
//! its first entry, and `insert` replaces that entry or appends a new one, so no key is ever
//! stored twice.
use vstd::prelude::*;

verus! {

/// A map from characters to values.
#[derive(Debug)]
pub struct CharMap<V> {
    entries: Vec<(char, V)>,
}

/// Entry `i` of `e` is the first one with key `c`.
spec fn first_at<V>(e: Seq<(char, V)>, c: char, i: int) -> bool {
    &&& 0 <= i < e.len()
    &&& e[i].0 == c
    &&& forall|j: int| 0 <= j < i ==> e[j].0 != c
}

proof fn lemma_first_at_unique<V>(e: Seq<(char, V)>, c: char, i: int, j: int)
    requires
        first_at(e, c, i),
        first_at(e, c, j),
    ensures
        i == j,
{
}

impl<V> View for CharMap<V> {
    type V = Map<char, V>;

    closed spec fn view(&self) -> Map<char, V> {
        Map::new(
            |c: char| exists|i: int| first_at(self.entries@, c, i),
            |c: char| self.entries@[choose|i: int| first_at(self.entries@, c, i)].1,
        )
    }
}

impl<V> CharMap<V> {
    /// The position of the first entry with key `c`, if there is one.
    fn position(&self, c: char) -> (r: Option<usize>)
        ensures
            match r {
                Some(i) => first_at(self.entries@, c, i as int),
                None => forall|i: int| 0 <= i < self.entries@.len() ==> self.entries@[i].0 != c,
            },
    {
        let mut i: usize = 0;
        while i < self.entries.len()
            invariant
                i <= self.entries@.len(),
                forall|k: int| 0 <= k < i ==> self.entries@[k].0 != c,
            decreases self.entries@.len() - i,
        {
            if self.entries[i].0 == c {
                return Some(i);
            }
            i = i + 1;
        }
        None
    }

    /// An empty map.
    pub fn new() -> (r: Self)
        ensures
            r@ == Map::<char, V>::empty(),
    {
        let r = CharMap { entries: Vec::new() };
        assert(r@ =~= Map::<char, V>::empty());
        r
    }

    /// The value that `c` maps to, if any.
    pub fn get(&self, c: &char) -> (r: Option<&V>)
        ensures
            match r {
                Some(v) => self@.contains_key(*c) && self@[*c] == *v,
                None => !self@.contains_key(*c),
            },
    {
        match self.position(*c) {
            Some(i) => {
                proof {
                    let k = choose|k: int| first_at(self.entries@, *c, k);
                    lemma_first_at_unique(self.entries@, *c, i as int, k);
                }
                Some(&self.entries[i].1)
            },
            None => None,
        }
    }

    /// Maps `c` to `v`, in place of any value it had.
    pub fn insert(&mut self, c: char, v: V)
        ensures
            final(self)@ == old(self)@.insert(c, v),
    {
        let ghost old_map = self@;
        let ghost old_e = self.entries@;
        let n = self.entries.len();
        match self.position(c) {
            Some(i) => {
                self.entries.set(i, (c, v));
                proof {
                    let e = self.entries@;
                    assert(e.len() == old_e.len());
                    assert forall|j: int| 0 <= j < e.len() implies #[trigger] e[j].0
                        == old_e[j].0 by {}
                    assert forall|d: char, k: int| first_at(e, d, k) <==> first_at(old_e, d, k) by {
                        if first_at(e, d, k) {
                            assert forall|j: int| 0 <= j < k implies old_e[j].0 != d by {
                                assert(e[j].0 == old_e[j].0);
                            }
                        }
                        if first_at(old_e, d, k) {
                            assert forall|j: int| 0 <= j < k implies e[j].0 != d by {
                                assert(e[j].0 == old_e[j].0);
                            }
                        }
                    }
                    assert(first_at(e, c, i as int));
                    assert forall|d: char| #[trigger] self@.contains_key(d) implies self@[d]
                        == old_map.insert(c, v)[d] by {
                        let k = choose|k: int| first_at(e, d, k);
                        if d != c {
                            let k0 = choose|k0: int| first_at(old_e, d, k0);
                            lemma_first_at_unique(old_e, d, k, k0);
                        } else {
                            lemma_first_at_unique(e, c, k, i as int);
                        }
                    }
                    assert(self@ =~= old_map.insert(c, v));
                }
            },
            None => {
                self.entries.push((c, v));
                proof {
                    let e = self.entries@;
                    assert(first_at(e, c, n as int));
                    assert forall|j: int| 0 <= j < old_e.len() implies #[trigger] e[j]
                        == old_e[j] by {}
                    assert forall|d: char, k: int| d != c implies first_at(e, d, k) <==> first_at(
                        old_e,
                        d,
                        k,
                    ) by {
                        if first_at(e, d, k) {
                            assert(k < old_e.len());
                            assert forall|j: int| 0 <= j < k implies old_e[j].0 != d by {
                                assert(e[j] == old_e[j]);
                            }
                        }
                        if first_at(old_e, d, k) {
                            assert forall|j: int| 0 <= j < k implies e[j].0 != d by {
                                assert(e[j] == old_e[j]);
                            }
                        }
                    }
                    assert forall|d: char| #[trigger] self@.contains_key(d) implies self@[d]
                        == old_map.insert(c, v)[d] by {
                        let k = choose|k: int| first_at(e, d, k);
                        if d != c {
                            let k0 = choose|k0: int| first_at(old_e, d, k0);
                            lemma_first_at_unique(old_e, d, k, k0);
                            assert(e[k] == old_e[k]);
                        } else {
                            lemma_first_at_unique(e, c, k, n as int);
                        }
                    }
                    assert(self@ =~= old_map.insert(c, v));
                }
            },
        }
    }
}

} // verus!
