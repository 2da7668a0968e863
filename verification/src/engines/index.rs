//! An index from keys to command positions that keeps its keys in ascending
//! order, as an ordered map does.

use vstd::prelude::*;
use vstd::hash_map::StringHashMap;
use crate::engines::keyorder::{
    key_less, key_lt, lemma_key_lt_irreflexive, lemma_key_lt_total, lemma_key_lt_transitive,
    strictly_sorted,
};
use crate::engines::kvs::CommandPos;

verus! {

/// The views of the strings of `v`.
pub open spec fn key_views(v: Seq<String>) -> Seq<Seq<char>> {
    v.map_values(|s: String| s@)
}

/// A strictly sorted sequence holds each key at most once.
pub proof fn lemma_sorted_distinct(s: Seq<Seq<char>>, i: int, j: int)
    requires
        strictly_sorted(s),
        0 <= i < s.len(),
        0 <= j < s.len(),
        i != j,
    ensures
        s[i] != s[j],
{
    if i < j {
        assert(key_lt(s[i], s[j]));
        lemma_key_lt_irreflexive(s[i]);
    } else {
        assert(key_lt(s[j], s[i]));
        lemma_key_lt_irreflexive(s[j]);
    }
}

proof fn lemma_sorted_insert(s: Seq<Seq<char>>, p: int, k: Seq<char>)
    requires
        strictly_sorted(s),
        0 <= p <= s.len(),
        forall|j: int| 0 <= j < p ==> key_lt(#[trigger] s[j], k),
        forall|j: int| p <= j < s.len() ==> key_lt(k, #[trigger] s[j]),
    ensures
        strictly_sorted(s.insert(p, k)),
{
    let t = s.insert(p, k);
    assert forall|i: int, j: int| 0 <= i < j < t.len() implies key_lt(#[trigger] t[i], #[trigger] t[j]) by {
        if i < p && j < p {
            assert(t[i] == s[i] && t[j] == s[j]);
        } else if i < p && j == p {
            assert(t[i] == s[i]);
        } else if i < p {
            assert(t[i] == s[i] && t[j] == s[j - 1]);
        } else if i == p {
            assert(t[j] == s[j - 1]);
        } else {
            assert(t[i] == s[i - 1] && t[j] == s[j - 1]);
        }
    }
}

proof fn lemma_sorted_remove(s: Seq<Seq<char>>, p: int)
    requires
        strictly_sorted(s),
        0 <= p < s.len(),
    ensures
        strictly_sorted(s.remove(p)),
{
    let t = s.remove(p);
    assert forall|i: int, j: int| 0 <= i < j < t.len() implies key_lt(#[trigger] t[i], #[trigger] t[j]) by {
        if j < p {
            assert(t[i] == s[i] && t[j] == s[j]);
        } else if i < p {
            assert(t[i] == s[i] && t[j] == s[j + 1]);
        } else {
            assert(t[i] == s[i + 1] && t[j] == s[j + 1]);
        }
    }
}

/// A map from keys to command positions whose keys are also kept in
/// ascending key order.
pub struct KeyIndex {
    map: StringHashMap<CommandPos>,
    order: Vec<String>,
}

impl View for KeyIndex {
    type V = Map<Seq<char>, CommandPos>;

    closed spec fn view(&self) -> Map<Seq<char>, CommandPos> {
        self.map@
    }
}

impl KeyIndex {
    /// The keys of the index in ascending order.
    pub closed spec fn keys(&self) -> Seq<Seq<char>> {
        key_views(self.order@)
    }

    /// The keys are strictly sorted and are exactly the keys of the map.
    pub open spec fn wf(&self) -> bool {
        &&& strictly_sorted(self.keys())
        &&& forall|k: Seq<char>|
            #![trigger self@.contains_key(k)]
            #![trigger self.keys().contains(k)]
            self@.contains_key(k) <==> self.keys().contains(k)
    }

    /// The keys of a well-formed index are its domain, listed once each.
    pub proof fn lemma_keys_cover(&self, i: int)
        requires
            self.wf(),
            0 <= i < self.keys().len(),
        ensures
            self@.contains_key(self.keys()[i]),
    {
        assert(self.keys().contains(self.keys()[i]));
    }

    /// An empty index.
    pub fn new() -> (r: KeyIndex)
        ensures
            r.wf(),
            r@ == Map::<Seq<char>, CommandPos>::empty(),
            r.keys() == Seq::<Seq<char>>::empty(),
    {
        let r = KeyIndex { map: StringHashMap::new(), order: Vec::new() };
        assert(r.keys() =~= Seq::<Seq<char>>::empty());
        r
    }

    /// The number of keys.
    pub fn len(&self) -> (n: usize)
        ensures
            n == self.keys().len(),
    {
        self.order.len()
    }

    /// Whether `key` is in the index.
    pub fn contains_key(&self, key: &str) -> (b: bool)
        ensures
            b == self@.contains_key(key@),
    {
        self.map.contains_key(key)
    }

    /// The position recorded for `key`, if any.
    pub fn get(&self, key: &str) -> (r: Option<CommandPos>)
        ensures
            r == (if self@.contains_key(key@) {
                Some(self@[key@])
            } else {
                None
            }),
    {
        match self.map.get(key) {
            Some(p) => Some(*p),
            None => None,
        }
    }

    /// Records `value` for `key` and gives back what was recorded before.
    pub fn insert(&mut self, key: String, value: CommandPos) -> (previous: Option<CommandPos>)
        requires
            old(self).wf(),
        ensures
            final(self).wf(),
            final(self)@ == old(self)@.insert(key@, value),
            previous == (if old(self)@.contains_key(key@) {
                Some(old(self)@[key@])
            } else {
                None
            }),
    {
        let previous = self.get(key.as_str());
        if previous.is_none() {
            let ghost s = self.keys();
            let mut p: usize = 0;
            while p < self.order.len() && key_less(self.order[p].as_str(), key.as_str())
                invariant
                    p <= self.order.len(),
                    self.keys() == s,
                    s == key_views(self.order@),
                    forall|j: int| 0 <= j < p ==> key_lt(#[trigger] s[j], key@),
                decreases self.order.len() - p,
            {
                p = p + 1;
            }
            proof {
                assert(!s.contains(key@));
                assert forall|j: int| p <= j < s.len() implies key_lt(key@, #[trigger] s[j]) by {
                    assert(s[p as int] != key@);
                    if !key_lt(key@, s[p as int]) {
                        lemma_key_lt_total(key@, s[p as int]);
                    }
                    if j > p {
                        lemma_key_lt_transitive(key@, s[p as int], s[j]);
                    }
                }
                lemma_sorted_insert(s, p as int, key@);
            }
            self.order.insert(p, key.clone());
            proof {
                assert(self.keys() =~= s.insert(p as int, key@));
                assert forall|k: Seq<char>| self.keys().contains(k) <==> s.contains(k) || k == key@ by {
                    if self.keys().contains(k) {
                        let i = choose|i: int| 0 <= i < self.keys().len() && self.keys()[i] == k;
                        if i < p {
                            assert(s[i] == k);
                        } else if i > p {
                            assert(s[i - 1] == k);
                        }
                    }
                    if s.contains(k) {
                        let i = choose|i: int| 0 <= i < s.len() && s[i] == k;
                        if i < p {
                            assert(self.keys()[i] == k);
                        } else {
                            assert(self.keys()[i + 1] == k);
                        }
                    }
                    if k == key@ {
                        assert(self.keys()[p as int] == k);
                    }
                }
            }
        }
        self.map.insert(key, value);
        previous
    }

    /// Removes `key` and gives back what was recorded for it.
    pub fn remove(&mut self, key: &str) -> (previous: Option<CommandPos>)
        requires
            old(self).wf(),
        ensures
            final(self).wf(),
            final(self)@ == old(self)@.remove(key@),
            previous == (if old(self)@.contains_key(key@) {
                Some(old(self)@[key@])
            } else {
                None
            }),
    {
        let previous = self.get(key);
        if previous.is_some() {
            let ghost s = self.keys();
            let k = key.to_owned();
            let mut p: usize = 0;
            while p < self.order.len() && !(self.order[p] == k)
                invariant
                    p <= self.order.len(),
                    self.keys() == s,
                    s == key_views(self.order@),
                    k@ == key@,
                    forall|j: int| 0 <= j < p ==> #[trigger] s[j] != key@,
                decreases self.order.len() - p,
            {
                p = p + 1;
            }
            proof {
                assert(s.contains(key@));
                if p == self.order.len() {
                    let i = choose|i: int| 0 <= i < s.len() && s[i] == key@;
                    assert(s[i] != key@);
                }
                assert(s[p as int] == key@);
                lemma_sorted_remove(s, p as int);
            }
            self.order.remove(p);
            proof {
                assert(self.keys() =~= s.remove(p as int));
                assert forall|x: Seq<char>| self.keys().contains(x) <==> s.contains(x) && x != key@ by {
                    if self.keys().contains(x) {
                        let i = choose|i: int| 0 <= i < self.keys().len() && self.keys()[i] == x;
                        if i < p {
                            assert(s[i] == x);
                            lemma_sorted_distinct(s, i, p as int);
                        } else {
                            assert(s[i + 1] == x);
                            lemma_sorted_distinct(s, i + 1, p as int);
                        }
                    }
                    if s.contains(x) && x != key@ {
                        let i = choose|i: int| 0 <= i < s.len() && s[i] == x;
                        assert(i != p);
                        if i < p {
                            assert(self.keys()[i] == x);
                        } else {
                            assert(self.keys()[i - 1] == x);
                        }
                    }
                }
            }
            self.map.remove(key);
        }
        previous
    }

    /// The recorded positions in ascending order of their keys.
    pub fn values_in_order(&self) -> (r: Vec<CommandPos>)
        requires
            self.wf(),
        ensures
            r@.len() == self.keys().len(),
            forall|i: int| 0 <= i < r@.len() ==> r@[i] == self@[#[trigger] self.keys()[i]],
    {
        let mut r: Vec<CommandPos> = Vec::new();
        let mut i: usize = 0;
        while i < self.order.len()
            invariant
                self.wf(),
                i <= self.order.len(),
                r@.len() == i,
                forall|j: int| 0 <= j < i ==> r@[j] == self@[#[trigger] self.keys()[j]],
            decreases self.order.len() - i,
        {
            proof {
                self.lemma_keys_cover(i as int);
            }
            let key = self.order[i].as_str();
            assert(key@ == self.keys()[i as int]);
            match self.map.get(key) {
                Some(p) => {
                    r.push(*p);
                },
                None => {},
            }
            i = i + 1;
        }
        r
    }

    /// Records `value` for the key at place `i` of the key order.
    pub fn set_at(&mut self, i: usize, value: CommandPos)
        requires
            old(self).wf(),
            i < old(self).keys().len(),
        ensures
            final(self).wf(),
            final(self).keys() == old(self).keys(),
            final(self)@ == old(self)@.insert(old(self).keys()[i as int], value),
    {
        proof {
            self.lemma_keys_cover(i as int);
        }
        let key = self.order[i].clone();
        self.map.insert(key, value);
    }
}

} // verus!
