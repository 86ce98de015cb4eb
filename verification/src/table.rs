//! A hash map keyed by the crate's own small identifiers.
//!
//! Every key type folds into one integer, which is what the underlying map
//! hashes. The key itself is stored beside its value, so what a table holds
//! can be read back without unfolding anything.

use std::collections::HashMap;
use vstd::prelude::*;

verus! {

broadcast use vstd::std_specs::hash::group_hash_axioms;

/// Something a [`Table`] can be keyed by: a value that folds into an integer
/// without two of them ever sharing one.
pub trait Key: Sized + Copy {
    spec fn code(self) -> u128;

    fn to_code(self) -> (c: u128)
        ensures
            c == self.code(),
    ;

    fn same(self, other: Self) -> (b: bool)
        ensures
            b == (self == other),
    ;

    proof fn code_is_injective(a: Self, b: Self)
        ensures
            a.code() == b.code() ==> a == b,
    ;
}

impl Key for u32 {
    open spec fn code(self) -> u128 {
        self as u128
    }

    fn to_code(self) -> (c: u128) {
        self as u128
    }

    fn same(self, other: Self) -> (b: bool) {
        self == other
    }

    proof fn code_is_injective(a: Self, b: Self) {
    }
}

/// A map from small identifiers to values.
pub struct Table<K: Key, V> {
    slots: HashMap<u128, (K, V)>,
}

impl<K: Key, V> View for Table<K, V> {
    type V = Map<K, V>;

    closed spec fn view(&self) -> Map<K, V> {
        Map::new(
            |k: K| self.slots@.contains_key(k.code()) && self.slots@[k.code()].0 == k,
            |k: K| self.slots@[k.code()].1,
        )
    }
}

impl<K: Key, V> Table<K, V> {
    pub fn new() -> (t: Self)
        ensures
            t@ == Map::<K, V>::empty(),
    {
        let t = Table { slots: HashMap::new() };
        assert(t@ =~= Map::<K, V>::empty());
        t
    }

    pub fn get(&self, k: &K) -> (r: Option<&V>)
        ensures
            r == (if self@.contains_key(*k) {
                Some(&self@[*k])
            } else {
                None
            }),
    {
        match self.slots.get(&k.to_code()) {
            Some(slot) => if slot.0.same(*k) {
                Some(&slot.1)
            } else {
                None
            },
            None => None,
        }
    }

    pub fn contains_key(&self, k: &K) -> (b: bool)
        ensures
            b == self@.contains_key(*k),
    {
        self.get(k).is_some()
    }

    pub fn insert(&mut self, k: K, v: V)
        ensures
            final(self)@ == old(self)@.insert(k, v),
    {
        let code: u128 = k.to_code();
        self.slots.insert(code, (k, v));
        proof {
            assert forall|j: K| #[trigger] j.code() == code implies j == k by {
                K::code_is_injective(j, k);
            }
            assert(self@ =~= old(self)@.insert(k, v));
        }
    }

    pub fn remove(&mut self, k: &K) -> (r: Option<V>)
        ensures
            final(self)@ == old(self)@.remove(*k),
            r == (if old(self)@.contains_key(*k) {
                Some(old(self)@[*k])
            } else {
                None
            }),
    {
        let code: u128 = k.to_code();
        proof {
            assert forall|j: K| #[trigger] j.code() == code implies j == *k by {
                K::code_is_injective(j, *k);
            }
        }
        if !self.contains_key(k) {
            assert(self@ =~= old(self)@.remove(*k));
            return None;
        }
        let taken = self.slots.remove(&code);
        assert(self@ =~= old(self)@.remove(*k));
        match taken {
            Some(slot) => Some(slot.1),
            None => None,
        }
    }

    /// Every key present, each once, in no particular order.
    pub fn keys(&self) -> (ks: Vec<K>)
        ensures
            ks@.no_duplicates(),
            ks@.to_set() == self@.dom(),
            forall|k: K| #[trigger] ks@.contains(k) <==> self@.contains_key(k),
            ks@.len() == self@.dom().len(),
    {
        let mut ks: Vec<K> = Vec::new();
        let ghost mut seen = Seq::<u128>::empty();
        for code in it: self.slots.keys()
            invariant
                it.seq().unref().to_set() == self.slots@.dom(),
                it.seq().no_duplicates(),
                ks@.no_duplicates(),
                seen == it.seq().unref().take(it.index() as int),
                it.index() == it.seq().len() ==> seen.to_set() == self.slots@.dom(),
                forall|k: K|
                    #![trigger ks@.contains(k)]
                    ks@.contains(k) <==> self@.contains_key(k) && seen.contains(k.code()),
        {
            let ghost before = ks@;
            let ghost now_seen = it.seq().unref().take(it.index() as int + 1);
            proof {
                assert(*code == it.seq().unref()[it.index() as int]);
                assert(it.seq().unref().to_set().contains(*code));
                assert(now_seen =~= seen.push(*code));
                assert(!seen.contains(*code)) by {
                    if seen.contains(*code) {
                        let j = choose|j: int| 0 <= j < seen.len() && seen[j] == *code;
                        assert(it.seq()[j] == it.seq()[it.index() as int]);
                    }
                }
                assert forall|k: K| now_seen.contains(k.code()) <==> (seen.contains(k.code())
                    || k.code() == *code) by {
                    if seen.contains(k.code()) {
                        let j = choose|j: int| 0 <= j < seen.len() && seen[j] == k.code();
                        assert(now_seen[j] == k.code());
                    }
                    if k.code() == *code {
                        assert(now_seen[seen.len() as int] == k.code());
                    }
                }
            }
            if let Some(slot) = self.slots.get(code) {
                if slot.0.to_code() == *code {
                    assert(!before.contains(slot.0));
                    ks.push(slot.0);
                    proof {
                        assert forall|k: K| #[trigger] ks@.contains(k) <==> before.contains(k) || k
                            == slot.0 by {
                            if before.contains(k) {
                                let j = choose|j: int| 0 <= j < before.len() && before[j] == k;
                                assert(ks@[j] == k);
                            }
                            if k == slot.0 {
                                assert(ks@[before.len() as int] == k);
                            }
                        }
                    }
                }
            }
            proof {
                assert forall|k: K| #[trigger] ks@.contains(k) implies self@.contains_key(k)
                    && now_seen.contains(k.code()) by {
                    if before.contains(k) {
                    }
                }
                assert forall|k: K| self@.contains_key(k) && now_seen.contains(k.code())
                    implies #[trigger] ks@.contains(k) by {
                    assert(before.contains(k) <==> self@.contains_key(k) && seen.contains(k.code()));
                }
                seen = seen.push(*code);
                assert(it.index() + 1 == it.seq().len() ==> seen =~= it.seq().unref());
            }
        }
        proof {
            assert forall|k: K| #[trigger] ks@.contains(k) <==> self@.contains_key(k) by {
                if self@.contains_key(k) {
                    assert(seen.to_set().contains(k.code()));
                }
            }
            assert(ks@.to_set() =~= self@.dom());
            ks@.unique_seq_to_set();
        }
        ks
    }

    /// Drops every entry that `keep` does not want.
    pub fn retain<F: Fn(&K, &V) -> bool>(&mut self, keep: F)
        requires
            forall|k: &K, v: &V| #[trigger] call_requires(keep, (k, v)),
        ensures
            final(self)@.submap_of(old(self)@),
            forall|k: K|
                #![trigger final(self)@.contains_key(k)]
                #![trigger old(self)@.contains_key(k)]
                old(self)@.contains_key(k) ==> call_ensures(
                    keep,
                    (&k, &old(self)@[k]),
                    final(self)@.contains_key(k),
                ),
    {
        let ks = self.keys();
        let ghost before = self@;
        let mut i: usize = 0;
        while i < ks.len()
            invariant
                i <= ks.len(),
                ks@.no_duplicates(),
                forall|k: K| #[trigger] ks@.contains(k) <==> before.contains_key(k),
                forall|k: &K, v: &V| #[trigger] call_requires(keep, (k, v)),
                self@.submap_of(before),
                forall|j: int| i <= j < ks@.len() ==> self@.contains_key(#[trigger] ks@[j]),
                forall|j: int|
                    0 <= j < i ==> call_ensures(
                        keep,
                        (&#[trigger] ks@[j], &before[ks@[j]]),
                        self@.contains_key(ks@[j]),
                    ),
            decreases ks.len() - i,
        {
            let k = ks[i];
            assert(ks@.contains(k));
            let kept = match self.get(&k) {
                Some(v) => keep(&k, v),
                None => false,
            };
            if !kept {
                self.remove(&k);
            }
            i += 1;
        }
        proof {
            assert forall|k: K| before.contains_key(k) implies call_ensures(
                keep,
                (&k, &before[k]),
                #[trigger] self@.contains_key(k),
            ) by {
                assert(ks@.contains(k));
            }
        }
    }

    /// Replaces every value by what `change` makes of it.
    pub fn change_all<F: Fn(V) -> V>(&mut self, change: F)
        requires
            forall|v: V| #[trigger] call_requires(change, (v,)),
        ensures
            final(self)@.dom() == old(self)@.dom(),
            forall|k: K|
                #![trigger final(self)@[k]]
                old(self)@.contains_key(k) ==> call_ensures(
                    change,
                    (old(self)@[k],),
                    final(self)@[k],
                ),
    {
        let ks = self.keys();
        let ghost before = self@;
        let mut i: usize = 0;
        while i < ks.len()
            invariant
                i <= ks.len(),
                ks@.no_duplicates(),
                forall|k: K| #[trigger] ks@.contains(k) <==> before.contains_key(k),
                forall|v: V| #[trigger] call_requires(change, (v,)),
                self@.dom() == before.dom(),
                forall|j: int| i <= j < ks@.len() ==> self@[#[trigger] ks@[j]] == before[ks@[j]],
                forall|j: int|
                    0 <= j < i ==> call_ensures(
                        change,
                        (before[#[trigger] ks@[j]],),
                        self@[ks@[j]],
                    ),
            decreases ks.len() - i,
        {
            let k = ks[i];
            assert(ks@.contains(k));
            if let Some(v) = self.remove(&k) {
                let changed = change(v);
                self.insert(k, changed);
            }
            assert(self@.dom() =~= before.dom());
            i += 1;
        }
        proof {
            assert forall|k: K| before.contains_key(k) implies call_ensures(
                change,
                (before[k],),
                #[trigger] self@[k],
            ) by {
                assert(ks@.contains(k));
            }
        }
    }

    pub fn len(&self) -> (n: usize)
        ensures
            n == self@.dom().len(),
    {
        self.keys().len()
    }
}

impl<K: Key, V> Default for Table<K, V> {
    fn default() -> (t: Self)
        ensures
            t@ == Map::<K, V>::empty(),
    {
        Table::new()
    }
}

} // verus!
