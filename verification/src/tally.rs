//! Counting.

use crate::table::{Key, Table};
use vstd::prelude::*;

verus! {

/// How often a value stands in a list.
pub open spec fn occurrences(list: Seq<u32>, x: u32) -> nat
    decreases list.len(),
{
    if list.len() == 0 {
        0
    } else {
        occurrences(list.drop_last(), x) + if list.last() == x {
            1nat
        } else {
            0
        }
    }
}

/// Counts every value of a list.
pub fn count_each(list: &Vec<u32>) -> (out: Table<u32, u64>)
    ensures
        forall|x: u32| #[trigger] out@.contains_key(x) <==> occurrences(list@, x) > 0,
        forall|x: u32| #[trigger] out@.contains_key(x) ==> out@[x] == occurrences(list@, x),
{
    let mut out: Table<u32, u64> = Table::new();
    let mut i: usize = 0;
    while i < list.len()
        invariant
            i <= list.len(),
            forall|x: u32| #[trigger]
                out@.contains_key(x) <==> occurrences(list@.take(i as int), x) > 0,
            forall|x: u32| #[trigger]
                out@.contains_key(x) ==> out@[x] == occurrences(list@.take(i as int), x),
            forall|x: u32| #[trigger] occurrences(list@.take(i as int), x) <= i,
        decreases list.len() - i,
    {
        let x = list[i];
        proof {
            assert(list@.take(i as int + 1).drop_last() =~= list@.take(i as int));
            assert(forall|y: u32| #[trigger]
                occurrences(list@.take(i as int + 1), y) == occurrences(list@.take(i as int), y)
                    + if y == x {
                    1nat
                } else {
                    0
                });
            assert(occurrences(list@.take(i as int), x) <= i);
        }
        let n: u64 = match out.get(&x) {
            Some(n) => *n,
            None => 0,
        };
        out.insert(x, n + 1);
        i += 1;
    }
    assert(list@.take(i as int) =~= list@);
    out
}

/// Counting along a list, each of whose entries stands there once, comes to the
/// size of the set of entries counted.
pub proof fn lemma_occurrences_count<K: Key>(
    keys: Seq<K>,
    f: spec_fn(K) -> u32,
    x: u32,
    counted: Set<K>,
)
    requires
        keys.no_duplicates(),
        forall|k: K| #[trigger] counted.contains(k) <==> keys.contains(k) && f(k) == x,
    ensures
        occurrences(keys.map_values(f), x) == counted.len(),
        counted.finite(),
    decreases keys.len(),
{
    if keys.len() == 0 {
        assert(counted =~= Set::empty());
    } else {
        let rest = keys.drop_last();
        let last = keys.last();
        assert(keys.map_values(f).drop_last() =~= rest.map_values(f));
        assert forall|k: K| #[trigger] keys.contains(k) <==> rest.contains(k) || k == last by {
            if keys.contains(k) {
                let j = choose|j: int| 0 <= j < keys.len() && keys[j] == k;
                if j < rest.len() {
                    assert(rest[j] == k);
                }
            }
            if rest.contains(k) {
                let j = choose|j: int| 0 <= j < rest.len() && rest[j] == k;
                assert(keys[j] == k);
            }
            assert(keys[keys.len() - 1] == last);
        }
        assert(!rest.contains(last)) by {
            if rest.contains(last) {
                let j = choose|j: int| 0 <= j < rest.len() && rest[j] == last;
                assert(keys[j] == keys[keys.len() - 1]);
            }
        }
        if f(last) == x {
            lemma_occurrences_count(rest, f, x, counted.remove(last));
            assert(counted =~= counted.remove(last).insert(last));
        } else {
            lemma_occurrences_count(rest, f, x, counted);
        }
    }
}

} // verus!
