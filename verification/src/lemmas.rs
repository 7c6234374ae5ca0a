//! Lemmas on chains and buckets that the laws of the table and its code rest on.

use crate::hasher::{bucket_index, code_point_sum};
use crate::model::{
    allocated, chain_of, chain_wf, distinct_keys, first_match, flattened, position, Entry,
    TableModel,
};
use vstd::arithmetic::div_mod::lemma_mod_bound;
use vstd::prelude::*;

verus! {

/// The first entry with a key is the only first entry with it.
pub proof fn lemma_position_is<T>(chain: Seq<Entry<T>>, key: Seq<char>, j: int)
    requires
        first_match(chain, key, j),
    ensures
        position(chain, key) == Some(j),
{
    let found = choose|j: int| first_match(chain, key, j);
    if found < j {
        assert(chain[found].key != key);
    } else if j < found {
        assert(chain[j].key != key);
    }
}

/// A position is the place of a first match.
pub proof fn lemma_position_in_range<T>(chain: Seq<Entry<T>>, key: Seq<char>)
    ensures
        position(chain, key) matches Some(j) ==> first_match(chain, key, j),
{
}

/// An entry with the key `key` at `i` means that a first such entry exists at
/// or before `i`.
pub proof fn lemma_match_has_first<T>(chain: Seq<Entry<T>>, key: Seq<char>, i: int)
    requires
        0 <= i < chain.len(),
        chain[i].key == key,
    ensures
        position(chain, key) matches Some(j) && j <= i,
    decreases i,
{
    if forall|a: int| 0 <= a < i ==> (#[trigger] chain[a]).key != key {
        assert(first_match(chain, key, i));
        lemma_position_is(chain, key, i);
    } else {
        let a = choose|a: int| 0 <= a < i && (#[trigger] chain[a]).key == key;
        lemma_match_has_first(chain, key, a);
    }
}

/// A key without a position is the key of no entry.
pub proof fn lemma_no_position_is_absent<T>(chain: Seq<Entry<T>>, key: Seq<char>)
    requires
        position(chain, key) is None,
    ensures
        forall|i: int| 0 <= i < chain.len() ==> (#[trigger] chain[i]).key != key,
{
    assert forall|i: int| 0 <= i < chain.len() implies (#[trigger] chain[i]).key != key by {
        if chain[i].key == key {
            lemma_match_has_first(chain, key, i);
        }
    }
}

/// The position of a key depends only on which places hold that key.
pub proof fn lemma_position_follows_keys<T>(
    before: Seq<Entry<T>>,
    after: Seq<Entry<T>>,
    key: Seq<char>,
)
    requires
        before.len() <= after.len(),
        forall|a: int|
            0 <= a < before.len()
                ==> ((#[trigger] before[a]).key == key <==> (#[trigger] after[a]).key == key),
        forall|a: int| before.len() <= a < after.len() ==> (#[trigger] after[a]).key != key,
    ensures
        position(after, key) == position(before, key),
{
    match position(before, key) {
        Some(j) => {
            assert forall|a: int| 0 <= a < j implies (#[trigger] after[a]).key != key by {
                assert(before[a].key != key);
            }
            assert(before[j].key == key);
            assert(first_match(after, key, j));
            lemma_position_is(after, key, j);
        },
        None => {
            lemma_no_position_is_absent(before, key);
            if position(after, key) is Some {
                let j = position(after, key)->0;
                if j < before.len() {
                    assert(before[j].key != key);
                }
                assert(after[j].key == key);
            }
        },
    }
}

/// A chain of a bucket is still one when an entry of it is replaced by an
/// entry of the same key.
pub proof fn lemma_chain_wf_after_update<T>(
    chain: Seq<Entry<T>>,
    i: int,
    capacity: int,
    j: int,
    e: Entry<T>,
)
    requires
        chain_wf(chain, i, capacity),
        0 <= j < chain.len(),
        e.key == chain[j].key,
    ensures
        chain_wf(chain.update(j, e), i, capacity),
{
    let changed = chain.update(j, e);
    assert forall|a: int| 0 <= a < changed.len() implies (#[trigger] changed[a]).key
        == chain[a].key by {}
    assert forall|a: int, b: int|
        0 <= a < changed.len() && 0 <= b < changed.len() && a != b implies (
    #[trigger] changed[a]).key != (#[trigger] changed[b]).key by {
        assert(chain[a].key != chain[b].key);
    }
    assert forall|a: int| 0 <= a < changed.len() implies bucket_index(
        (#[trigger] changed[a]).key,
        capacity,
    ) == i by {
        assert(bucket_index(chain[a].key, capacity) == i);
    }
}

/// A chain of a bucket is still one when an entry is put at its end whose
/// key belongs to the bucket and is not in the chain.
pub proof fn lemma_chain_wf_after_push<T>(
    chain: Seq<Entry<T>>,
    i: int,
    capacity: int,
    e: Entry<T>,
)
    requires
        chain_wf(chain, i, capacity),
        bucket_index(e.key, capacity) == i,
        position(chain, e.key) is None,
    ensures
        chain_wf(chain.push(e), i, capacity),
{
    let longer = chain.push(e);
    lemma_no_position_is_absent(chain, e.key);
    assert forall|a: int, b: int|
        0 <= a < longer.len() && 0 <= b < longer.len() && a != b implies (
    #[trigger] longer[a]).key != (#[trigger] longer[b]).key by {
        if a < chain.len() && b < chain.len() {
            assert(chain[a].key != chain[b].key);
        } else if a < chain.len() {
            assert(chain[a].key != e.key);
        } else {
            assert(chain[b].key != e.key);
        }
    }
    assert forall|a: int| 0 <= a < longer.len() implies bucket_index(
        (#[trigger] longer[a]).key,
        capacity,
    ) == i by {
        if a < chain.len() {
            assert(bucket_index(chain[a].key, capacity) == i);
        }
    }
}

/// In a chain without a repeated key, a key occurs once where it has a
/// position and not at all where it has none.
pub proof fn lemma_chain_occurrences<T>(chain: Seq<Entry<T>>, key: Seq<char>)
    requires
        distinct_keys(chain),
    ensures
        chain.filter(|e: Entry<T>| e.key == key).len() == (if position(chain, key) is Some {
            1nat
        } else {
            0nat
        }),
    decreases chain.len(),
{
    reveal(Seq::filter);
    if chain.len() > 0 {
        let rest = chain.drop_last();
        assert forall|a: int, b: int|
            0 <= a < rest.len() && 0 <= b < rest.len() && a != b implies (
        #[trigger] rest[a]).key != (#[trigger] rest[b]).key by {
            assert(chain[a].key != chain[b].key);
        }
        lemma_chain_occurrences(rest, key);
        if chain.last().key == key {
            assert forall|a: int| 0 <= a < rest.len() implies (#[trigger] rest[a]).key != key by {
                assert(chain[a].key != chain[chain.len() - 1].key);
            }
            lemma_match_has_first(chain, key, chain.len() - 1);
        } else {
            assert forall|a: int| 0 <= a < rest.len() implies ((#[trigger] rest[a]).key == key
                <==> (#[trigger] chain[a]).key == key) by {}
            lemma_position_follows_keys(rest, chain, key);
        }
    }
}

/// Unallocated buckets hold no entry.
pub proof fn lemma_unallocated_is_bare<T>(buckets: Seq<Option<Seq<Entry<T>>>>)
    requires
        forall|i: int| 0 <= i < buckets.len() ==> buckets[i] is None,
    ensures
        flattened(buckets) == Seq::<Entry<T>>::empty(),
        allocated(buckets) == 0,
    decreases buckets.len(),
{
    if buckets.len() > 0 {
        lemma_unallocated_is_bare(buckets.drop_last());
        assert(flattened(buckets) =~= Seq::<Entry<T>>::empty());
    }
}

/// Changing one bucket changes the number of entries by the change in that
/// bucket's chain, and the number of allocated buckets by at most one.
pub proof fn lemma_update_counts<T>(
    buckets: Seq<Option<Seq<Entry<T>>>>,
    i: int,
    node: Option<Seq<Entry<T>>>,
)
    requires
        0 <= i < buckets.len(),
    ensures
        flattened(buckets.update(i, node)).len() == flattened(buckets).len() - chain_of(
            buckets[i],
        ).len() + chain_of(node).len(),
        allocated(buckets.update(i, node)) == allocated(buckets) - (if buckets[i] is Some {
            1int
        } else {
            0int
        }) + (if node is Some {
            1int
        } else {
            0int
        }),
    decreases buckets.len(),
{
    let changed = buckets.update(i, node);
    if i == buckets.len() - 1 {
        assert(changed.drop_last() =~= buckets.drop_last());
    } else {
        assert(changed.drop_last() =~= buckets.drop_last().update(i, node));
        lemma_update_counts(buckets.drop_last(), i, node);
    }
}

/// The entries of two runs of buckets, one after the other, are the entries
/// of the first followed by those of the second.
pub proof fn lemma_flattened_concat<T>(
    front: Seq<Option<Seq<Entry<T>>>>,
    back: Seq<Option<Seq<Entry<T>>>>,
)
    ensures
        flattened(front + back) == flattened(front) + flattened(back),
    decreases back.len(),
{
    if back.len() == 0 {
        assert(front + back =~= front);
        assert(flattened(front) + flattened(back) =~= flattened(front));
    } else {
        assert((front + back).drop_last() =~= front + back.drop_last());
        lemma_flattened_concat(front, back.drop_last());
        assert(flattened(front + back) =~= flattened(front) + flattened(back));
    }
}

/// The entries of a table are those of the buckets before a given one, then
/// that bucket's chain, then those of the buckets after it.
pub proof fn lemma_flattened_split<T>(buckets: Seq<Option<Seq<Entry<T>>>>, i: int)
    requires
        0 <= i < buckets.len(),
    ensures
        flattened(buckets) == flattened(buckets.take(i)) + chain_of(buckets[i]) + flattened(
            buckets.skip(i + 1),
        ),
{
    let front = buckets.take(i + 1);
    assert(buckets =~= front + buckets.skip(i + 1));
    lemma_flattened_concat(front, buckets.skip(i + 1));
    assert(front.drop_last() =~= buckets.take(i));
    assert(front.last() == buckets[i]);
}

/// Every entry of a table is an entry of the chain of some bucket.
pub proof fn lemma_entry_has_place<T>(buckets: Seq<Option<Seq<Entry<T>>>>, n: int)
    requires
        0 <= n < flattened(buckets).len(),
    ensures
        exists|i: int, j: int|
            0 <= i < buckets.len() && 0 <= j < chain_of(buckets[i]).len() && flattened(buckets)[n]
                == #[trigger] chain_of(buckets[i])[j],
    decreases buckets.len(),
{
    let rest = buckets.drop_last();
    if n < flattened(rest).len() {
        lemma_entry_has_place(rest, n);
        let (i, j) = choose|i: int, j: int|
            0 <= i < rest.len() && 0 <= j < chain_of(rest[i]).len() && flattened(rest)[n]
                == #[trigger] chain_of(rest[i])[j];
        assert(flattened(buckets)[n] == chain_of(buckets[i])[j]);
    } else {
        let i = buckets.len() - 1;
        let j = n - flattened(rest).len();
        assert(flattened(buckets)[n] == chain_of(buckets[i])[j]);
    }
}

/// A key's bucket is one of the buckets.
pub proof fn lemma_home_in_range<T>(m: TableModel<T>, key: Seq<char>)
    requires
        m.capacity() > 0,
    ensures
        0 <= m.home(key) < m.capacity(),
{
    lemma_mod_bound(code_point_sum(key), m.capacity() as int);
}

/// A table of unallocated buckets stores no key.
pub proof fn lemma_empty_lookup<T>(capacity: nat, key: Seq<char>)
    ensures
        TableModel::<T>::empty(capacity).lookup(key) is None,
{
    if capacity > 0 {
        lemma_home_in_range(TableModel::<T>::empty(capacity), key);
    }
}

/// A table of unallocated buckets meets the invariant.
pub proof fn lemma_empty_is_wf<T>(capacity: nat)
    ensures
        TableModel::<T>::empty(capacity).wf(),
{
    lemma_unallocated_is_bare(TableModel::<T>::empty(capacity).buckets);
}

/// After an insert the key is stored with the value given, and every other
/// key is stored as before.
pub proof fn lemma_lookup_after_insert<T>(
    m: TableModel<T>,
    key: Seq<char>,
    value: T,
    other: Seq<char>,
)
    requires
        m.capacity() > 0,
    ensures
        m.insert(key, value).capacity() == m.capacity(),
        m.insert(key, value).lookup(key) == Some(value),
        other != key ==> m.insert(key, value).lookup(other) == m.lookup(other),
{
    let e = Entry { key, value };
    let i = m.home(key);
    lemma_home_in_range(m, key);
    lemma_home_in_range(m, other);
    let before = chain_of(m.buckets[i]);
    let after = m.insert(key, value).buckets[i]->0;
    match position(before, key) {
        Some(j) => {
            assert(after == before.update(j, e));
            assert forall|a: int| 0 <= a < j implies (#[trigger] after[a]).key != key by {
                assert(before[a].key != key);
            }
            lemma_position_is(after, key, j);
        },
        None => {
            assert(after =~= before.push(e));
            lemma_no_position_is_absent(before, key);
            assert forall|a: int| 0 <= a < before.len() implies (#[trigger] after[a]).key
                != key by {
                assert(before[a].key != key);
            }
            lemma_position_is(after, key, before.len() as int);
        },
    }
    if other != key && m.home(other) == i {
        lemma_position_follows_keys(before, after, other);
        lemma_position_in_range(before, other);
    }
}

/// As a map, an insert is the insert of a map.
pub proof fn lemma_insert_as_map<T>(m: TableModel<T>, key: Seq<char>, value: T)
    requires
        m.capacity() > 0,
    ensures
        m.insert(key, value).as_map() == m.as_map().insert(key, value),
{
    assert forall|other: Seq<char>|
        m.insert(key, value).lookup(other) == (if other == key {
            Some(value)
        } else {
            m.lookup(other)
        }) by {
        lemma_lookup_after_insert(m, key, value, other);
    }
    assert(m.insert(key, value).as_map() =~= m.as_map().insert(key, value));
}

/// A table whose bucket `i` gets a chain of that bucket keeps the invariant,
/// as long as the collisions follow the number of entries.
pub proof fn lemma_wf_after_update<T>(m: TableModel<T>, i: int, chain: Seq<Entry<T>>, added: nat)
    requires
        m.wf(),
        0 <= i < m.capacity(),
        chain_wf(chain, i, m.capacity() as int),
        chain.len() == chain_of(m.buckets[i]).len() + (if m.buckets[i] is Some {
            added
        } else {
            added + 1
        }),
    ensures
        (TableModel {
            buckets: m.buckets.update(i, Some(chain)),
            collisions: m.collisions + added,
        }).wf(),
{
    let after = TableModel {
        buckets: m.buckets.update(i, Some(chain)),
        collisions: m.collisions + added,
    };
    lemma_update_counts(m.buckets, i, Some(chain));
    assert forall|b: int|
        0 <= b < after.buckets.len() && (#[trigger] after.buckets[b]) is Some implies chain_wf(
        after.buckets[b]->0,
        b,
        after.capacity() as int,
    ) by {
        if b != i {
            assert(m.buckets[b] is Some);
        }
    }
}

/// The table with one entry replaced by an entry of the same key keeps the
/// invariant.
pub proof fn lemma_replace_keeps_wf<T>(m: TableModel<T>, key: Seq<char>, e: Entry<T>)
    requires
        m.wf(),
        e.key == key,
    ensures
        m.replace(key, e).wf(),
{
    if m.find(key) is Some {
        let (i, j) = m.find(key)->0;
        lemma_home_in_range(m, key);
        let chain = m.buckets[i]->0;
        lemma_position_in_range(chain, key);
        lemma_chain_wf_after_update(chain, i, m.capacity() as int, j, e);
        lemma_wf_after_update(m, i, chain.update(j, e), 0);
    }
}

/// An insert keeps the invariant.
pub proof fn lemma_insert_keeps_wf<T>(m: TableModel<T>, key: Seq<char>, value: T)
    requires
        m.capacity() > 0,
        m.wf(),
    ensures
        m.insert(key, value).wf(),
{
    let e = Entry { key, value };
    let i = m.home(key);
    lemma_home_in_range(m, key);
    match m.buckets[i] {
        Some(chain) => {
            if position(chain, key) is Some {
                lemma_replace_keeps_wf(m, key, e);
            } else {
                lemma_chain_wf_after_push(chain, i, m.capacity() as int, e);
                lemma_wf_after_update(m, i, chain.push(e), 1);
            }
        },
        None => {
            assert(distinct_keys(seq![e]));
            lemma_wf_after_update(m, i, seq![e], 0);
        },
    }
}

/// In a well-formed table the entry at a place is the entry stored under its
/// key.
pub proof fn lemma_place_is_found<T>(m: TableModel<T>, i: int, j: int)
    requires
        m.wf(),
        0 <= i < m.buckets.len(),
        0 <= j < chain_of(m.buckets[i]).len(),
    ensures
        m.find(chain_of(m.buckets[i])[j].key) == Some((i, j)),
{
    let chain = m.buckets[i]->0;
    let key = chain[j].key;
    assert forall|a: int| 0 <= a < j implies (#[trigger] chain[a]).key != key by {
        assert(chain[a].key != chain[j].key);
    }
    lemma_position_is(chain, key, j);
}

/// Among the entries of the first `n` buckets of a well-formed table, a key
/// occurs once where its own bucket is among them and holds it, and not at
/// all otherwise.
pub proof fn lemma_prefix_occurrences<T>(m: TableModel<T>, key: Seq<char>, n: int)
    requires
        m.wf(),
        0 <= n <= m.capacity(),
    ensures
        flattened(m.buckets.take(n)).filter(|e: Entry<T>| e.key == key).len() == (if m.home(key)
            < n && m.find(key) is Some {
            1nat
        } else {
            0nat
        }),
    decreases n,
{
    let has_key = |e: Entry<T>| e.key == key;
    if n > 0 {
        let b = n - 1;
        lemma_home_in_range(m, key);
        lemma_prefix_occurrences(m, key, b);
        assert(m.buckets.take(n).drop_last() =~= m.buckets.take(b));
        assert(m.buckets.take(n).last() == m.buckets[b]);
        let chain = chain_of(m.buckets[b]);
        Seq::filter_distributes_over_add(flattened(m.buckets.take(b)), chain, has_key);
        if m.buckets[b] is Some {
            lemma_chain_occurrences(chain, key);
            if b != m.home(key) && position(chain, key) is Some {
                let j = position(chain, key)->0;
                assert(bucket_index(chain[j].key, m.capacity() as int) == b);
            }
        } else {
            reveal(Seq::filter);
        }
    } else {
        reveal(Seq::filter);
    }
}

} // verus!
