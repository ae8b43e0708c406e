//! Tables keyed by name, kept as lists of entries: a name is looked up by
//! its first entry.

use vstd::prelude::*;
use crate::text::str_eq;

verus! {

/// The names of the entries, in order.
pub open spec fn entry_keys<V>(entries: Seq<(String, V)>) -> Seq<Seq<char>> {
    Seq::new(entries.len(), |i: int| entries[i].0@)
}

/// No name stands twice: what a map from names gives by itself.
pub open spec fn distinct(keys: Seq<Seq<char>>) -> bool {
    forall|i: int, j: int| 0 <= i < j < keys.len() ==> #[trigger] keys[i] != #[trigger] keys[j]
}

/// The place of the first name that equals `key`, if there is one.
pub open spec fn first_index(keys: Seq<Seq<char>>, key: Seq<char>) -> Option<int>
    decreases keys.len(),
{
    if keys.len() == 0 {
        None
    } else {
        match first_index(keys.drop_last(), key) {
            Some(i) => Some(i),
            None => if keys.last() == key {
                Some(keys.len() - 1)
            } else {
                None
            },
        }
    }
}

/// What `first_index` finds is the first place at which the name stands, and
/// it finds nothing only where the name stands nowhere.
pub proof fn lemma_first_index(keys: Seq<Seq<char>>, key: Seq<char>)
    ensures
        match first_index(keys, key) {
            Some(i) => 0 <= i < keys.len() && keys[i] == key && forall|k: int|
                0 <= k < i ==> keys[k] != key,
            None => forall|k: int| 0 <= k < keys.len() ==> keys[k] != key,
        },
    decreases keys.len(),
{
    if keys.len() > 0 {
        lemma_first_index(keys.drop_last(), key);
        assert forall|k: int| 0 <= k < keys.len() - 1 implies keys[k] == keys.drop_last()[k] by {}
    }
}

/// Where no name stands twice, a name is found at the one place at which it
/// stands, whatever the order of the entries.
pub proof fn lemma_distinct_lookup(keys: Seq<Seq<char>>, key: Seq<char>, at: int)
    requires
        distinct(keys),
        0 <= at < keys.len(),
        keys[at] == key,
    ensures
        first_index(keys, key) == Some(at),
{
    lemma_first_index(keys, key);
}

/// A name that was found among the first entries is found at the same place
/// among all of them.
pub proof fn lemma_found_stays(keys: Seq<Seq<char>>, key: Seq<char>, k: int)
    requires
        0 <= k <= keys.len(),
        first_index(keys.take(k), key) is Some,
    ensures
        first_index(keys, key) == first_index(keys.take(k), key),
    decreases keys.len(),
{
    if k < keys.len() {
        assert(keys.drop_last().take(k) =~= keys.take(k));
        lemma_found_stays(keys.drop_last(), key, k);
    } else {
        assert(keys.take(k) =~= keys);
    }
}

/// Looks a name up: the place of its first entry.
pub fn find_key<V>(entries: &Vec<(String, V)>, key: &str) -> (r: Option<usize>)
    ensures
        match r {
            Some(i) => i < entries.len() && first_index(entry_keys(entries@), key@) == Some(
                i as int,
            ),
            None => first_index(entry_keys(entries@), key@) is None,
        },
{
    let ghost keys = entry_keys(entries@);
    let n = entries.len();
    let mut i: usize = 0;
    assert(keys.take(0) =~= Seq::<Seq<char>>::empty());
    while i < n
        invariant
            i <= n,
            n == entries.len(),
            keys == entry_keys(entries@),
            first_index(keys.take(i as int), key@) is None,
        decreases n - i,
    {
        proof {
            assert(keys.take(i + 1).drop_last() =~= keys.take(i as int));
            assert(keys.take(i + 1).last() == entries@[i as int].0@);
        }
        if str_eq(entries[i].0.as_str(), key) {
            proof {
                lemma_found_stays(keys, key@, i + 1);
            }
            return Some(i);
        }
        i += 1;
    }
    assert(keys.take(n as int) =~= keys);
    None
}

} // verus!
