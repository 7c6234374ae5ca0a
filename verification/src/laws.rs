//! The laws of the table, stated over its model.

use crate::hasher::{bucket_index, lemma_sum_ignores_order};
use crate::lemmas::{
    lemma_empty_lookup, lemma_entry_has_place, lemma_flattened_split, lemma_home_in_range,
    lemma_insert_keeps_wf, lemma_lookup_after_insert, lemma_place_is_found,
    lemma_position_in_range, lemma_prefix_occurrences, lemma_unallocated_is_bare,
    lemma_update_counts,
};
use crate::model::{chain_of, flattened, position, Entry, TableModel};
use vstd::prelude::*;

verus! {

/// A table of unallocated buckets stores no key, whatever its capacity, and
/// none at all where it has no bucket.
pub proof fn law_empty_table_stores_nothing<T>(capacity: nat, key: Seq<char>)
    ensures
        TableModel::<T>::empty(capacity).lookup(key) is None,
        TableModel::<T>::empty(capacity).entries().len() == 0,
{
    lemma_empty_lookup::<T>(capacity, key);
    lemma_unallocated_is_bare(TableModel::<T>::empty(capacity).buckets);
}

/// Two distinct keys, inserted in either order, are then both stored, each
/// with its own value.
pub proof fn law_distinct_keys_coexist<T>(
    m: TableModel<T>,
    k1: Seq<char>,
    v1: T,
    k2: Seq<char>,
    v2: T,
)
    requires
        m.capacity() > 0,
        k1 != k2,
    ensures
        m.insert(k1, v1).insert(k2, v2).lookup(k1) == Some(v1),
        m.insert(k1, v1).insert(k2, v2).lookup(k2) == Some(v2),
        m.insert(k2, v2).insert(k1, v1).lookup(k1) == Some(v1),
        m.insert(k2, v2).insert(k1, v1).lookup(k2) == Some(v2),
{
    lemma_lookup_after_insert(m, k1, v1, k2);
    lemma_lookup_after_insert(m.insert(k1, v1), k2, v2, k1);
    lemma_lookup_after_insert(m, k2, v2, k1);
    lemma_lookup_after_insert(m.insert(k2, v2), k1, v1, k2);
}

/// In a well-formed table a stored key is the key of exactly one entry, and
/// a key that is not stored is the key of none.
pub proof fn law_one_entry_per_key<T>(m: TableModel<T>, key: Seq<char>)
    requires
        m.wf(),
    ensures
        m.occurrences(key) == (if m.lookup(key) is Some {
            1nat
        } else {
            0nat
        }),
{
    lemma_prefix_occurrences(m, key, m.capacity() as int);
    assert(m.buckets.take(m.capacity() as int) =~= m.buckets);
    if m.capacity() > 0 {
        lemma_home_in_range(m, key);
    }
}

/// Inserting a key a second time overwrites: the key is then stored with the
/// second value, in exactly one entry, and the table has as many entries and
/// has counted as many collisions as before the second insert.
pub proof fn law_second_insert_overwrites<T>(m: TableModel<T>, key: Seq<char>, first: T, second: T)
    requires
        m.capacity() > 0,
        m.wf(),
    ensures
        m.insert(key, first).insert(key, second).lookup(key) == Some(second),
        m.insert(key, first).insert(key, second).occurrences(key) == 1,
        m.insert(key, first).insert(key, second).entries().len() == m.insert(
            key,
            first,
        ).entries().len(),
        m.insert(key, first).insert(key, second).collisions == m.insert(key, first).collisions,
{
    let once = m.insert(key, first);
    let twice = once.insert(key, second);
    lemma_lookup_after_insert(m, key, first, key);
    lemma_lookup_after_insert(once, key, second, key);
    lemma_insert_keeps_wf(m, key, first);
    lemma_insert_keeps_wf(once, key, second);
    law_one_entry_per_key(twice, key);
    let (i, j) = once.find(key)->0;
    lemma_home_in_range(once, key);
    let chain = once.buckets[i]->0;
    let changed = chain.update(j, Entry { key, value: second });
    assert(twice.buckets =~= once.buckets.update(i, Some(changed)));
    lemma_update_counts(once.buckets, i, Some(changed));
}

/// Iteration and lookup agree on a well-formed table: every entry that
/// iteration yields is the one stored under its key, and every key that is
/// stored is yielded with its value.
pub proof fn law_iteration_yields_what_is_stored<T>(m: TableModel<T>)
    requires
        m.wf(),
    ensures
        forall|n: int|
            0 <= n < m.entries().len() ==> m.entry((#[trigger] m.entries()[n]).key) == Some(
                m.entries()[n],
            ),
        forall|key: Seq<char>| (#[trigger] m.entry(key)) is Some ==> m.entries().contains(
                m.entry(key)->0,
            ),
{
    assert forall|n: int| 0 <= n < m.entries().len() implies m.entry(
        (#[trigger] m.entries()[n]).key,
    ) == Some(m.entries()[n]) by {
        lemma_entry_has_place(m.buckets, n);
        let (i, j) = choose|i: int, j: int|
            0 <= i < m.buckets.len() && 0 <= j < chain_of(m.buckets[i]).len() && flattened(
                m.buckets,
            )[n] == #[trigger] chain_of(m.buckets[i])[j];
        lemma_place_is_found(m, i, j);
    }
    assert forall|key: Seq<char>| (#[trigger] m.entry(key)) is Some implies m.entries().contains(
        m.entry(key)->0,
    ) by {
        let (i, j) = m.find(key)->0;
        lemma_home_in_range(m, key);
        lemma_position_in_range(m.buckets[i]->0, key);
        lemma_flattened_split(m.buckets, i);
        let n = flattened(m.buckets.take(i)).len() + j;
        assert(m.entries()[n] == m.buckets[i]->0[j]);
    }
}

/// An insert changes the chain of the key's bucket and nothing else, so the
/// entries of the other buckets keep their places in the iteration: before
/// and after, the entries are those of the buckets before the key's bucket,
/// then that bucket's chain, then those of the buckets after it. In that
/// chain a stored key keeps its place and a new key goes to the end.
pub proof fn law_insert_keeps_iteration_order<T>(m: TableModel<T>, key: Seq<char>, value: T)
    requires
        m.capacity() > 0,
    ensures
        ({
            let i = m.home(key);
            let before = chain_of(m.buckets[i]);
            let after = chain_of(m.insert(key, value).buckets[i]);
            let e = Entry { key, value };
            &&& m.entries() == flattened(m.buckets.take(i)) + before + flattened(
                m.buckets.skip(i + 1),
            )
            &&& m.insert(key, value).entries() == flattened(m.buckets.take(i)) + after + flattened(
                m.buckets.skip(i + 1),
            )
            &&& after == match position(before, key) {
                Some(j) => before.update(j, e),
                None => before.push(e),
            }
        }),
{
    let i = m.home(key);
    let grown = m.insert(key, value);
    lemma_home_in_range(m, key);
    lemma_flattened_split(m.buckets, i);
    lemma_flattened_split(grown.buckets, i);
    assert(grown.buckets.take(i) =~= m.buckets.take(i));
    assert(grown.buckets.skip(i + 1) =~= m.buckets.skip(i + 1));
    let before = chain_of(m.buckets[i]);
    let e = Entry { key, value };
    if m.buckets[i] is None {
        assert(position(before, key) is None);
        assert(seq![e] =~= before.push(e));
    }
}

/// Anagrams share a bucket: keys made of the same characters, in whatever
/// order, belong to the same bucket of a table of any capacity.
pub proof fn law_anagrams_share_a_bucket(k1: Seq<char>, k2: Seq<char>, capacity: int)
    requires
        k1.to_multiset() == k2.to_multiset(),
    ensures
        bucket_index(k1, capacity) == bucket_index(k2, capacity),
{
    lemma_sum_ignores_order(k1, k2);
}

/// Anagrams stay apart: two different keys made of the same characters are
/// both stored after both were inserted, each with its own value, in the one
/// bucket that both belong to.
pub proof fn law_anagrams_coexist<T>(m: TableModel<T>, k1: Seq<char>, v1: T, k2: Seq<char>, v2: T)
    requires
        m.capacity() > 0,
        k1.to_multiset() == k2.to_multiset(),
        k1 != k2,
    ensures
        m.home(k1) == m.home(k2),
        m.insert(k1, v1).insert(k2, v2).lookup(k1) == Some(v1),
        m.insert(k1, v1).insert(k2, v2).lookup(k2) == Some(v2),
        ({
            let chain = chain_of(m.insert(k1, v1).insert(k2, v2).buckets[m.home(k1)]);
            position(chain, k1) is Some && position(chain, k2) is Some
        }),
{
    law_anagrams_share_a_bucket(k1, k2, m.capacity() as int);
    law_distinct_keys_coexist(m, k1, v1, k2, v2);
}

/// An insert counts as a collision exactly where the key was not stored and
/// its bucket was allocated.
pub proof fn law_collision_rule<T>(m: TableModel<T>, key: Seq<char>, value: T)
    requires
        m.capacity() > 0,
    ensures
        m.insert(key, value).collisions == m.collisions + (if m.lookup(key) is None
            && m.buckets[m.home(key)] is Some {
            1nat
        } else {
            0nat
        }),
{
}

/// Two distinct keys of one bucket count as exactly one collision when both
/// are inserted, and a third key of that bucket as one more. This holds
/// where the first insert finds the bucket unallocated, or finds exactly one
/// of the two keys stored, and where the third key was not stored.
pub proof fn law_colliding_keys_count_once<T>(
    m: TableModel<T>,
    k1: Seq<char>,
    v1: T,
    k2: Seq<char>,
    v2: T,
    k3: Seq<char>,
    v3: T,
)
    requires
        m.capacity() > 0,
        k1 != k2,
        m.home(k2) == m.home(k1),
        m.buckets[m.home(k1)] is None || (m.lookup(k1) is Some) != (m.lookup(k2) is Some),
    ensures
        m.insert(k1, v1).insert(k2, v2).collisions == m.collisions + 1,
        k3 != k1 && k3 != k2 && m.home(k3) == m.home(k1) && m.lookup(k3) is None ==> m.insert(
            k1,
            v1,
        ).insert(k2, v2).insert(k3, v3).collisions == m.collisions + 2,
{
    let one = m.insert(k1, v1);
    let two = one.insert(k2, v2);
    lemma_home_in_range(m, k1);
    lemma_lookup_after_insert(m, k1, v1, k2);
    lemma_lookup_after_insert(m, k1, v1, k3);
    lemma_lookup_after_insert(one, k2, v2, k3);
    assert(one.buckets[one.home(k2)] is Some);
    if m.home(k3) == m.home(k1) {
        assert(two.buckets[two.home(k3)] is Some);
    }
}

} // verus!
