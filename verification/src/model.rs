//! The mathematical model of the table: a sequence of optional chains of
//! entries, and a count of the collisions seen so far.

use crate::hasher::bucket_index;
use vstd::prelude::*;

verus! {

/// One stored pair.
#[verifier::ext_equal]
pub struct Entry<T> {
    pub key: Seq<char>,
    pub value: T,
}

/// The entries of a bucket; an unallocated bucket has none.
pub open spec fn chain_of<T>(bucket: Option<Seq<Entry<T>>>) -> Seq<Entry<T>> {
    match bucket {
        Some(chain) => chain,
        None => Seq::empty(),
    }
}

/// `j` is the place of the first entry of `chain` whose key is `key`.
pub open spec fn first_match<T>(chain: Seq<Entry<T>>, key: Seq<char>, j: int) -> bool {
    &&& 0 <= j < chain.len()
    &&& chain[j].key == key
    &&& forall|i: int| 0 <= i < j ==> (#[trigger] chain[i]).key != key
}

/// The place of the first entry of `chain` whose key is `key`, if there is one.
pub open spec fn position<T>(chain: Seq<Entry<T>>, key: Seq<char>) -> Option<int> {
    if exists|j: int| first_match(chain, key, j) {
        Some(choose|j: int| first_match(chain, key, j))
    } else {
        None
    }
}

/// No two entries of `chain` share a key.
pub open spec fn distinct_keys<T>(chain: Seq<Entry<T>>) -> bool {
    forall|a: int, b: int|
        0 <= a < chain.len() && 0 <= b < chain.len() && a != b
            ==> (#[trigger] chain[a]).key != (#[trigger] chain[b]).key
}

/// `chain` can be the chain of bucket `i` among `capacity` buckets: it holds
/// an entry, no two of its entries share a key, and every key in it belongs
/// to that bucket.
pub open spec fn chain_wf<T>(chain: Seq<Entry<T>>, i: int, capacity: int) -> bool {
    &&& chain.len() > 0
    &&& distinct_keys(chain)
    &&& forall|j: int|
        0 <= j < chain.len() ==> bucket_index((#[trigger] chain[j]).key, capacity) == i
}

/// The number of allocated buckets.
pub open spec fn allocated<T>(buckets: Seq<Option<Seq<Entry<T>>>>) -> nat
    decreases buckets.len(),
{
    if buckets.len() == 0 {
        0
    } else {
        allocated(buckets.drop_last()) + if buckets.last() is Some {
            1nat
        } else {
            0nat
        }
    }
}

/// The entries of all buckets, in bucket order and, within a bucket, in the
/// order of the chain.
pub open spec fn flattened<T>(buckets: Seq<Option<Seq<Entry<T>>>>) -> Seq<Entry<T>>
    decreases buckets.len(),
{
    if buckets.len() == 0 {
        Seq::empty()
    } else {
        flattened(buckets.drop_last()) + chain_of(buckets.last())
    }
}

/// The state of a table.
#[verifier::ext_equal]
pub struct TableModel<T> {
    pub buckets: Seq<Option<Seq<Entry<T>>>>,
    pub collisions: nat,
}

impl<T> TableModel<T> {
    /// A table of `capacity` unallocated buckets that has seen no collision.
    pub open spec fn empty(capacity: nat) -> Self {
        TableModel { buckets: Seq::new(capacity, |i: int| None), collisions: 0 }
    }

    /// The number of buckets.
    pub open spec fn capacity(self) -> nat {
        self.buckets.len()
    }

    /// The bucket that `key` belongs to.
    pub open spec fn home(self, key: Seq<char>) -> int
        recommends
            self.capacity() > 0,
    {
        bucket_index(key, self.capacity() as int)
    }

    /// Where `key` is stored: its bucket and its place in that bucket's chain.
    pub open spec fn find(self, key: Seq<char>) -> Option<(int, int)> {
        if self.capacity() == 0 {
            None
        } else {
            match self.buckets[self.home(key)] {
                Some(chain) => match position(chain, key) {
                    Some(j) => Some((self.home(key), j)),
                    None => None,
                },
                None => None,
            }
        }
    }

    /// The entry stored under `key`.
    pub open spec fn entry(self, key: Seq<char>) -> Option<Entry<T>> {
        match self.find(key) {
            Some((i, j)) => Some(self.buckets[i]->0[j]),
            None => None,
        }
    }

    /// The value stored under `key`.
    pub open spec fn lookup(self, key: Seq<char>) -> Option<T> {
        match self.entry(key) {
            Some(e) => Some(e.value),
            None => None,
        }
    }

    /// Inserting `key` would append to an allocated chain.
    pub open spec fn collides(self, key: Seq<char>) -> bool
        recommends
            self.capacity() > 0,
    {
        self.buckets[self.home(key)] is Some && self.find(key) is None
    }

    /// The table with the entry stored under `key` replaced by `e`; the table
    /// itself where `key` is not stored.
    pub open spec fn replace(self, key: Seq<char>, e: Entry<T>) -> Self {
        match self.find(key) {
            Some((i, j)) => TableModel {
                buckets: self.buckets.update(i, Some(self.buckets[i]->0.update(j, e))),
                collisions: self.collisions,
            },
            None => self,
        }
    }

    /// The table after `key` is given `value`: overwritten in place where it
    /// is stored, else put at the end of its bucket's chain, which counts as
    /// a collision where that chain was allocated.
    pub open spec fn insert(self, key: Seq<char>, value: T) -> Self
        recommends
            self.capacity() > 0,
    {
        let e = Entry { key, value };
        let i = self.home(key);
        if self.find(key) is Some {
            self.replace(key, e)
        } else {
            match self.buckets[i] {
                Some(chain) => TableModel {
                    buckets: self.buckets.update(i, Some(chain.push(e))),
                    collisions: self.collisions + 1,
                },
                None => TableModel {
                    buckets: self.buckets.update(i, Some(seq![e])),
                    collisions: self.collisions,
                },
            }
        }
    }

    /// All entries in iteration order.
    pub open spec fn entries(self) -> Seq<Entry<T>> {
        flattened(self.buckets)
    }

    /// How many entries have the key `key`.
    pub open spec fn occurrences(self, key: Seq<char>) -> nat {
        self.entries().filter(|e: Entry<T>| e.key == key).len()
    }

    /// The table as a map from keys to values.
    pub open spec fn as_map(self) -> Map<Seq<char>, T> {
        Map::new(|key: Seq<char>| self.lookup(key) is Some, |key: Seq<char>| self.lookup(key)->0)
    }

    /// The invariant of a table: every allocated chain is a chain of its
    /// bucket, so that no key is stored twice and each is found where it is
    /// looked for, and the collisions are the entries that were appended to
    /// an allocated chain, that is all entries but the first of each chain.
    pub open spec fn wf(self) -> bool {
        &&& forall|i: int|
            0 <= i < self.buckets.len() && (#[trigger] self.buckets[i]) is Some ==> chain_wf(
                self.buckets[i]->0,
                i,
                self.capacity() as int,
            )
        &&& self.collisions == self.entries().len() - allocated(self.buckets)
    }
}

} // verus!
