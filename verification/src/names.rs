//! A small map keyed by text.

use crate::text::same_text;
use vstd::prelude::*;

verus! {

/// The value of the first entry under a name.
spec fn lookup<V>(entries: Seq<(String, V)>, name: Seq<char>) -> Option<V>
    decreases entries.len(),
{
    if entries.len() == 0 {
        None
    } else {
        match lookup(entries.drop_last(), name) {
            Some(v) => Some(v),
            None => if entries.last().0@ == name {
                Some(entries.last().1)
            } else {
                None
            },
        }
    }
}

spec fn is_first<V>(entries: Seq<(String, V)>, name: Seq<char>, i: int) -> bool {
    &&& 0 <= i < entries.len()
    &&& entries[i].0@ == name
    &&& forall|j: int| 0 <= j < i ==> (#[trigger] entries[j]).0@ != name
}

/// An entry is the first under its name among the first `n` entries.
spec fn comes_from<V>(entries: Seq<(String, V)>, n: int, entry: (String, V)) -> bool {
    exists|j: int|
        0 <= j < n && #[trigger] is_first(entries, entry.0@, j) && entry.1 == entries[j].1
}

proof fn lemma_lookup_first<V>(entries: Seq<(String, V)>, name: Seq<char>, i: int)
    requires
        is_first(entries, name, i),
    ensures
        lookup(entries, name) == Some(entries[i].1),
    decreases entries.len(),
{
    let rest = entries.drop_last();
    if i < rest.len() {
        assert(is_first(rest, name, i)) by {
            assert forall|j: int| 0 <= j < i implies (#[trigger] rest[j]).0@ != name by {
                assert(entries[j].0@ != name);
            }
        }
        lemma_lookup_first(rest, name, i);
    } else {
        lemma_lookup_none(rest, name);
    }
}

proof fn lemma_lookup_none<V>(entries: Seq<(String, V)>, name: Seq<char>)
    requires
        forall|j: int| 0 <= j < entries.len() ==> (#[trigger] entries[j]).0@ != name,
    ensures
        lookup(entries, name) is None,
    decreases entries.len(),
{
    if entries.len() > 0 {
        let rest = entries.drop_last();
        assert forall|j: int| 0 <= j < rest.len() implies (#[trigger] rest[j]).0@ != name by {
            assert(entries[j].0@ != name);
        }
        lemma_lookup_none(rest, name);
    }
}

proof fn lemma_lookup_cases<V>(entries: Seq<(String, V)>, name: Seq<char>)
    ensures
        match lookup(entries, name) {
            Some(v) => exists|i: int| #[trigger] is_first(entries, name, i) && entries[i].1 == v,
            None => forall|j: int| 0 <= j < entries.len() ==> (#[trigger] entries[j]).0@ != name,
        },
    decreases entries.len(),
{
    if entries.len() > 0 {
        let rest = entries.drop_last();
        lemma_lookup_cases(rest, name);
        match lookup(rest, name) {
            Some(v) => {
                let i = choose|i: int| #[trigger] is_first(rest, name, i) && rest[i].1 == v;
                assert(is_first(entries, name, i)) by {
                    assert forall|j: int| 0 <= j < i implies (#[trigger] entries[j]).0@ != name by {
                        assert(rest[j].0@ != name);
                    }
                    assert(entries[i] == rest[i]);
                }
            },
            None => {
                assert forall|j: int| 0 <= j < rest.len() implies (#[trigger] entries[j]).0@
                    != name by {
                    assert(rest[j].0@ != name);
                }
                if entries.last().0@ == name {
                    assert(is_first(entries, name, entries.len() - 1));
                }
            },
        }
    }
}

/// A map from names to small values.
pub struct Names<V> {
    entries: Vec<(String, V)>,
}

impl<V> View for Names<V> {
    type V = Map<Seq<char>, V>;

    closed spec fn view(&self) -> Map<Seq<char>, V> {
        Map::new(
            |name: Seq<char>| lookup(self.entries@, name) is Some,
            |name: Seq<char>| lookup(self.entries@, name)->0,
        )
    }
}

impl<V: Copy> Names<V> {
    pub fn new() -> (n: Self)
        ensures
            n@ == Map::<Seq<char>, V>::empty(),
    {
        let n = Names { entries: Vec::new() };
        assert(n@ =~= Map::<Seq<char>, V>::empty());
        n
    }

    fn index_of(&self, name: &str) -> (r: Option<usize>)
        ensures
            match r {
                Some(i) => is_first(self.entries@, name@, i as int),
                None => forall|j: int|
                    0 <= j < self.entries@.len() ==> (#[trigger] self.entries@[j]).0@ != name@,
            },
    {
        let mut i: usize = 0;
        while i < self.entries.len()
            invariant
                i <= self.entries.len(),
                forall|j: int| 0 <= j < i ==> (#[trigger] self.entries@[j]).0@ != name@,
            decreases self.entries.len() - i,
        {
            if same_text(self.entries[i].0.as_str(), name) {
                return Some(i);
            }
            i += 1;
        }
        None
    }

    pub fn get(&self, name: &str) -> (r: Option<V>)
        ensures
            r == self@.get(name@),
    {
        match self.index_of(name) {
            Some(i) => {
                proof {
                    lemma_lookup_first(self.entries@, name@, i as int);
                }
                Some(self.entries[i].1)
            },
            None => {
                proof {
                    lemma_lookup_none(self.entries@, name@);
                }
                None
            },
        }
    }

    pub fn insert(&mut self, name: String, value: V)
        ensures
            final(self)@ == old(self)@.insert(name@, value),
    {
        let ghost before = self.entries@;
        let ghost text = name@;
        match self.index_of(name.as_str()) {
            Some(i) => {
                self.entries.set(i, (name, value));
                proof {
                    assert forall|n: Seq<char>| lookup(self.entries@, n) == if n == text {
                        Some(value)
                    } else {
                        lookup(before, n)
                    } by {
                        lemma_lookup_cases(before, n);
                        if n == text {
                            assert(is_first(self.entries@, n, i as int));
                            lemma_lookup_first(self.entries@, n, i as int);
                        } else if lookup(before, n) is Some {
                            let k = choose|k: int| #[trigger]
                                is_first(before, n, k) && before[k].1 == lookup(before, n)->0;
                            assert(is_first(self.entries@, n, k)) by {
                                assert forall|j: int| 0 <= j < k implies (
                                #[trigger] self.entries@[j]).0@ != n by {
                                    assert(before[j].0@ != n);
                                }
                            }
                            lemma_lookup_first(self.entries@, n, k);
                        } else {
                            assert forall|j: int| 0 <= j < self.entries@.len() implies (
                            #[trigger] self.entries@[j]).0@ != n by {
                                assert(before[j].0@ != n);
                            }
                            lemma_lookup_none(self.entries@, n);
                        }
                    }
                }
            },
            None => {
                self.entries.push((name, value));
                proof {
                    assert(self.entries@.drop_last() =~= before);
                    lemma_lookup_none(before, text);
                    assert forall|n: Seq<char>| lookup(self.entries@, n) == if n == text {
                        Some(value)
                    } else {
                        lookup(before, n)
                    } by {
                    }
                }
            },
        }
        assert(self@ =~= old(self)@.insert(text, value));
    }

    /// Drops every entry that `keep` does not want.
    pub fn retain<F: Fn(&V) -> bool>(&mut self, keep: F)
        requires
            forall|v: &V| #[trigger] call_requires(keep, (v,)),
        ensures
            final(self)@.submap_of(old(self)@),
            forall|n: Seq<char>|
                #![trigger final(self)@.contains_key(n)]
                #![trigger old(self)@.contains_key(n)]
                old(self)@.contains_key(n) ==> call_ensures(
                    keep,
                    (&old(self)@[n],),
                    final(self)@.contains_key(n),
                ),
    {
        let mut kept: Vec<(String, V)> = Vec::new();
        let mut i: usize = 0;
        while i < self.entries.len()
            invariant
                i <= self.entries.len(),
                self.entries@ == old(self).entries@,
                forall|v: &V| #[trigger] call_requires(keep, (v,)),
                forall|k: int|
                    0 <= k < kept@.len() ==> comes_from(
                        self.entries@,
                        i as int,
                        #[trigger] kept@[k],
                    ) && call_ensures(keep, (&kept@[k].1,), true),
                forall|j: int|
                    0 <= j < i && is_first(
                        self.entries@,
                        (#[trigger] self.entries@[j]).0@,
                        j,
                    ) ==> (exists|k: int|
                        0 <= k < kept@.len() && (#[trigger] kept@[k]).0@ == self.entries@[j].0@)
                        || call_ensures(keep, (&self.entries@[j].1,), false),
            decreases self.entries.len() - i,
        {
            let ghost before = kept@;
            let first = match self.index_of(self.entries[i].0.as_str()) {
                Some(at) => at == i,
                None => false,
            };
            if first {
                let value = self.entries[i].1;
                if keep(&value) {
                    kept.push((self.entries[i].0.clone(), value));
                    assert(kept@[before.len() as int].0@ == self.entries@[i as int].0@);
                }
            }
            proof {
                assert forall|k: int| 0 <= k < kept@.len() implies comes_from(
                    self.entries@,
                    i + 1,
                    #[trigger] kept@[k],
                ) && call_ensures(keep, (&kept@[k].1,), true) by {
                    if k < before.len() {
                        assert(kept@[k] == before[k]);
                        assert(comes_from(self.entries@, i as int, before[k]));
                    } else {
                        assert(is_first(self.entries@, kept@[k].0@, i as int));
                    }
                }
                assert forall|j: int|
                    0 <= j < i + 1 && is_first(
                        self.entries@,
                        (#[trigger] self.entries@[j]).0@,
                        j,
                    ) implies (exists|k: int|
                    0 <= k < kept@.len() && (#[trigger] kept@[k]).0@ == self.entries@[j].0@)
                    || call_ensures(keep, (&self.entries@[j].1,), false) by {
                    if j < i {
                        if exists|k: int|
                            0 <= k < before.len() && (#[trigger] before[k]).0@
                                == self.entries@[j].0@ {
                            let k = choose|k: int|
                                0 <= k < before.len() && (#[trigger] before[k]).0@
                                    == self.entries@[j].0@;
                            assert(kept@[k].0@ == self.entries@[j].0@);
                        }
                    }
                }
            }
            i += 1;
        }
        proof {
            let old_entries = self.entries@;
            assert forall|n: Seq<char>| #![trigger lookup(kept@, n)]
                lookup(kept@, n) matches Some(v) ==> lookup(old_entries, n) == Some(v)
                    && call_ensures(keep, (&v,), true) by {
                lemma_lookup_cases(kept@, n);
                if lookup(kept@, n) is Some {
                    let k = choose|k: int| #[trigger]
                        is_first(kept@, n, k) && kept@[k].1 == lookup(kept@, n)->0;
                    assert(comes_from(old_entries, old_entries.len() as int, kept@[k]));
                    let j = choose|j: int|
                        0 <= j < old_entries.len() && #[trigger] is_first(
                            old_entries,
                            kept@[k].0@,
                            j,
                        ) && kept@[k].1 == old_entries[j].1;
                    lemma_lookup_first(old_entries, n, j);
                }
            }
            assert forall|n: Seq<char>| #![trigger lookup(old_entries, n)]
                lookup(old_entries, n) is Some && lookup(kept@, n) is None ==> call_ensures(
                    keep,
                    (&lookup(old_entries, n)->0,),
                    false,
                ) by {
                lemma_lookup_cases(old_entries, n);
                lemma_lookup_cases(kept@, n);
                if lookup(old_entries, n) is Some && lookup(kept@, n) is None {
                    let j = choose|j: int| #[trigger]
                        is_first(old_entries, n, j) && old_entries[j].1 == lookup(old_entries, n)->0;
                    assert(old_entries[j].0@ == n);
                }
            }
        }
        self.entries = kept;
    }

    /// How many names there are places for.
    pub fn slots(&self) -> (n: usize)
        ensures
            n == self.slot_count(),
    {
        self.entries.len()
    }

    pub closed spec fn slot_count(&self) -> nat {
        self.entries@.len()
    }

    pub closed spec fn slot(&self, i: int) -> (Seq<char>, V) {
        (self.entries@[i].0@, self.entries@[i].1)
    }

    /// One of the places, in no particular order.
    pub fn at(&self, i: usize) -> (r: (&String, V))
        requires
            i < self.slot_count(),
        ensures
            (r.0@, r.1) == self.slot(i as int),
    {
        (&self.entries[i].0, self.entries[i].1)
    }

    /// A name is in the map if and only if it stands in some place, and its
    /// value is the one in the first such place.
    pub proof fn slots_are_the_map(&self, name: Seq<char>)
        ensures
            match self@.get(name) {
                Some(v) => exists|i: int|
                    0 <= i < self.slot_count() && #[trigger] self.slot(i) == (name, v) && forall|
                        j: int,
                    |
                        0 <= j < i ==> (#[trigger] self.slot(j)).0 != name,
                None => forall|i: int|
                    0 <= i < self.slot_count() ==> (#[trigger] self.slot(i)).0 != name,
            },
    {
        lemma_lookup_cases(self.entries@, name);
        if let Some(v) = lookup(self.entries@, name) {
            let i = choose|i: int| #[trigger]
                is_first(self.entries@, name, i) && self.entries@[i].1 == v;
            assert(self.slot(i) == (name, v));
        }
    }
}

impl<V: Copy> Default for Names<V> {
    fn default() -> (n: Self)
        ensures
            n@ == Map::<Seq<char>, V>::empty(),
    {
        Names::new()
    }
}

} // verus!
