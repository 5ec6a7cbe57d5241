//! A small string-keyed map kept as an association list in first-insertion order.
use vstd::prelude::*;
use crate::declaration_plan::{first_named, lemma_first_named};
use crate::port_binding::str_eq;
use crate::text::owned;

verus! {

/// The keys of an association list.
pub open spec fn keys_of<V>(e: Seq<(String, V)>) -> Seq<Seq<char>> {
    e.map_values(|p: (String, V)| p.0@)
}

/// The value of the first entry keyed `k`.
pub open spec fn entry_of<V>(e: Seq<(String, V)>, k: Seq<char>) -> Option<V> {
    let i = first_named(keys_of(e), k, e.len() as int);
    if i >= 0 {
        Some(e[i].1)
    } else {
        None
    }
}

proof fn lemma_first_named_push(names: Seq<Seq<char>>, x: Seq<char>, key: Seq<char>, m: int)
    requires
        0 <= m <= names.len(),
    ensures
        first_named(names.push(x), key, m) == first_named(names, key, m),
    decreases m,
{
    if m > 0 {
        lemma_first_named_push(names, x, key, m - 1);
    }
}

/// A string-keyed map: inserting an existing key replaces its value in place.
pub struct StrMap<V> {
    pub entries: Vec<(String, V)>,
}

impl<V> StrMap<V> {
    /// The value stored for `k`.
    pub open spec fn at(&self, k: Seq<char>) -> Option<V> {
        entry_of(self.entries@, k)
    }

    /// An empty map.
    pub fn new() -> (m: StrMap<V>)
        ensures
            forall|k: Seq<char>| m.at(k) is None,
    {
        StrMap { entries: Vec::new() }
    }

    /// The index of the entry keyed `k`.
    pub fn find(&self, k: &str) -> (r: Option<usize>)
        ensures
            match r {
                Some(i) => i < self.entries@.len() && i as int == first_named(
                    keys_of(self.entries@),
                    k@,
                    self.entries@.len() as int,
                ),
                None => first_named(keys_of(self.entries@), k@, self.entries@.len() as int) == -1,
            },
    {
        let ghost ks = keys_of(self.entries@);
        let mut i: usize = 0;
        while i < self.entries.len()
            invariant
                ks == keys_of(self.entries@),
                i <= self.entries@.len(),
                forall|j: int| 0 <= j < i ==> ks[j] != k@,
            decreases self.entries@.len() - i,
        {
            if str_eq(self.entries[i].0.as_str(), k) {
                proof {
                    lemma_first_named(ks, k@, self.entries@.len() as int);
                    assert(ks[i as int] == k@);
                }
                return Some(i);
            }
            i += 1;
        }
        proof {
            lemma_first_named(ks, k@, self.entries@.len() as int);
        }
        None
    }

    /// The value stored for `k`.
    pub fn get(&self, k: &str) -> (r: Option<&V>)
        ensures
            match r {
                Some(v) => self.at(k@) == Some(*v),
                None => self.at(k@) is None,
            },
    {
        match self.find(k) {
            Some(i) => Some(&self.entries[i].1),
            None => None,
        }
    }

    /// Store `v` for `k`, replacing an earlier value.
    pub fn insert(&mut self, k: &str, v: V)
        ensures
            forall|x: Seq<char>| #[trigger] final(self).at(x) == if x == k@ {
                Some(v)
            } else {
                old(self).at(x)
            },
    {
        let ghost before = self.entries@;
        let ghost n = before.len() as int;
        match self.find(k) {
            Some(i) => {
                proof {
                    lemma_first_named(keys_of(before), k@, n);
                }
                self.entries.set(i, (owned(k), v));
                proof {
                    assert(keys_of(self.entries@) =~= keys_of(before));
                    assert forall|x: Seq<char>| #[trigger] self.at(x) == if x == k@ {
                        Some(v)
                    } else {
                        entry_of(before, x)
                    } by {
                        lemma_first_named(keys_of(before), x, n);
                    }
                }
            },
            None => {
                self.entries.push((owned(k), v));
                proof {
                    assert(keys_of(self.entries@) =~= keys_of(before).push(k@));
                    assert forall|x: Seq<char>| #[trigger] self.at(x) == if x == k@ {
                        Some(v)
                    } else {
                        entry_of(before, x)
                    } by {
                        lemma_first_named_push(keys_of(before), k@, x, n);
                        lemma_first_named(keys_of(before), x, n);
                        lemma_first_named(keys_of(self.entries@), x, n + 1);
                    }
                }
            },
        }
    }
}

} // verus!
