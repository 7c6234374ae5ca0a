//! The table: a fixed number of buckets, each an optional chain of items.

use crate::hasher::default_hash;
use crate::lemmas::{
    lemma_empty_is_wf, lemma_empty_lookup, lemma_insert_as_map, lemma_insert_keeps_wf,
    lemma_lookup_after_insert, lemma_position_is, lemma_replace_keeps_wf,
};
use crate::model::{flattened, position, Entry, TableModel};
use crate::text::same_text;
use std::borrow::Cow;
use vstd::prelude::*;
use vstd::std_specs::iter::IteratorSpec;

verus! {

/// The number of buckets of a table made by `default`.
pub const DEFAULT_HASH2ST_SIZE: usize = 256;

/// A key with its value.
pub struct HashItem<T> {
    pub k: Cow<'static, str>,
    pub v: T,
}

impl<T> HashItem<T> {
    /// The key as text.
    pub fn key(&self) -> (k: &str)
        ensures
            k@ == self.k@,
    {
        match &self.k {
            Cow::Borrowed(text) => text,
            Cow::Owned(text) => text.as_str(),
        }
    }
}

impl<T> View for HashItem<T> {
    type V = Entry<T>;

    open spec fn view(&self) -> Entry<T> {
        Entry { key: self.k@, value: self.v }
    }
}

/// The entries of a sequence of items.
pub open spec fn owned_views<T>(items: Seq<HashItem<T>>) -> Seq<Entry<T>> {
    items.map_values(|item: HashItem<T>| item@)
}

/// The entries of a chain of items.
pub open spec fn chain_view<T>(chain: Vec<HashItem<T>>) -> Seq<Entry<T>> {
    owned_views(chain@)
}

/// The entries of a bucket, where it is allocated.
pub open spec fn node_view<T>(node: Option<Vec<HashItem<T>>>) -> Option<Seq<Entry<T>>> {
    match node {
        Some(chain) => Some(chain_view(chain)),
        None => None,
    }
}

/// The entries of a sequence of borrowed items.
pub open spec fn borrowed_views<T>(items: Seq<&HashItem<T>>) -> Seq<Entry<T>> {
    items.map_values(|item: &HashItem<T>| item@)
}

/// A hash table from text keys to values of type `T`, with a number of buckets
/// that is fixed when the table is made.
pub struct HashS2T<T> {
    items: Vec<Option<Vec<HashItem<T>>>>,
    stat_collisions: usize,
}

impl<T> View for HashS2T<T> {
    type V = TableModel<T>;

    closed spec fn view(&self) -> TableModel<T> {
        TableModel {
            buckets: self.items@.map_values(|node: Option<Vec<HashItem<T>>>| node_view(node)),
            collisions: self.stat_collisions as nat,
        }
    }
}

impl<T> HashS2T<T> {
    /// The invariant of the table.
    pub open spec fn wf(&self) -> bool {
        self@.wf()
    }

    /// Makes a table of `capacity` unallocated buckets.
    pub fn with_capacity(capacity: usize) -> (table: Self)
        ensures
            table@ == TableModel::<T>::empty(capacity as nat),
            table.wf(),
            forall|key: Seq<char>| (#[trigger] table@.lookup(key)) is None,
    {
        let mut items: Vec<Option<Vec<HashItem<T>>>> = Vec::with_capacity(capacity);
        let mut n: usize = 0;
        while n < capacity
            invariant
                n <= capacity,
                items@.len() == n,
                forall|i: int| 0 <= i < n ==> items@[i] is None,
            decreases capacity - n,
        {
            items.push(None);
            n += 1;
        }
        let table = HashS2T { items, stat_collisions: 0 };
        proof {
            assert(table@.buckets =~= TableModel::<T>::empty(capacity as nat).buckets);
            lemma_empty_is_wf::<T>(capacity as nat);
            assert forall|key: Seq<char>| (#[trigger] table@.lookup(key)) is None by {
                lemma_empty_lookup::<T>(capacity as nat, key);
            }
        }
        table
    }

    /// The number of buckets.
    pub fn capacity(&self) -> (capacity: usize)
        ensures
            capacity == self@.capacity(),
    {
        self.items.len()
    }

    /// The number of inserts so far that appended to an allocated chain.
    pub fn collisions(&self) -> (collisions: usize)
        ensures
            collisions == self@.collisions,
    {
        self.stat_collisions
    }
}

/// Finds the first item of `chain` whose key is `k`.
fn position_in<T>(chain: &Vec<HashItem<T>>, k: &str) -> (place: Option<usize>)
    ensures
        match place {
            Some(j) => position(chain_view(*chain), k@) == Some(j as int),
            None => position(chain_view(*chain), k@) is None,
        },
{
    let mut j: usize = 0;
    while j < chain.len()
        invariant
            j <= chain.len(),
            forall|i: int| 0 <= i < j ==> (#[trigger] chain_view(*chain)[i]).key != k@,
        decreases chain.len() - j,
    {
        if same_text(chain[j].key(), k) {
            proof {
                lemma_position_is(chain_view(*chain), k@, j as int);
            }
            return Some(j);
        }
        j += 1;
    }
    None
}

impl<T> HashS2T<T> {
    /// Finds the bucket of `k` and the place of `k` in that bucket's chain.
    fn locate(&self, k: &str) -> (place: Option<(usize, usize)>)
        ensures
            match place {
                Some((i, j)) => self@.find(k@) == Some((i as int, j as int)),
                None => self@.find(k@) is None,
            },
            place matches Some((i, j)) ==> i < self.items@.len() && self.items@[i as int] is Some
                && j < self.items@[i as int]->0@.len(),
    {
        if self.items.len() == 0 {
            return None;
        }
        let i = default_hash(k, self.items.len());
        match &self.items[i] {
            Some(chain) => match position_in(chain, k) {
                Some(j) => Some((i, j)),
                None => None,
            },
            None => None,
        }
    }

    /// Stores `v` under `k`. Where `k` is stored already its value is
    /// overwritten in place; else a new item goes to the end of the chain of
    /// its bucket, which counts as a collision where that chain was allocated.
    pub fn insert(&mut self, k: &str, v: T)
        requires
            old(self)@.capacity() > 0,
            old(self)@.collides(k@) ==> old(self)@.collisions < usize::MAX,
        ensures
            final(self)@ == old(self)@.insert(k@, v),
            final(self)@.capacity() == old(self)@.capacity(),
            final(self)@.collisions == old(self)@.collisions + (if old(self)@.collides(k@) {
                1nat
            } else {
                0nat
            }),
            final(self)@.as_map() == old(self)@.as_map().insert(k@, v),
            forall|other: Seq<char>| #[trigger]
                final(self)@.lookup(other) == (if other == k@ {
                    Some(v)
                } else {
                    old(self)@.lookup(other)
                }),
            old(self).wf() ==> final(self).wf(),
    {
        proof {
            lemma_insert_as_map(self@, k@, v);
            assert forall|other: Seq<char>| #[trigger]
                self@.insert(k@, v).lookup(other) == (if other == k@ {
                    Some(v)
                } else {
                    self@.lookup(other)
                }) by {
                lemma_lookup_after_insert(self@, k@, v, other);
            }
            if self.wf() {
                lemma_insert_keeps_wf(self@, k@, v);
            }
        }
        if let Some(item) = self.get_item_mut(k) {
            item.v = v;
            return;
        }
        let ghost before = self@;
        let i = default_hash(k, self.items.len());
        let item = HashItem { k: Cow::Owned(k.to_string()), v };
        match &mut self.items[i] {
            Some(items) => {
                self.stat_collisions += 1;
                items.push(item);
            },
            None => self.items[i] = Some(vec![item]),
        }
        assert(self@ =~~= before.insert(k@, v));
    }

    /// The item stored under `k`.
    pub fn get_item(&self, k: &str) -> (found: Option<&HashItem<T>>)
        ensures
            match found {
                Some(item) => self@.entry(k@) == Some(item@),
                None => self@.entry(k@) is None,
            },
    {
        match self.locate(k) {
            Some((i, j)) => match &self.items[i] {
                Some(chain) => Some(&chain[j]),
                None => None,
            },
            None => None,
        }
    }

    /// The item stored under `k`, borrowed from its chain.
    fn chain_item_mut(&mut self, k: &str) -> (found: Option<&mut HashItem<T>>)
        ensures
            match found {
                Some(item) => {
                    &&& old(self)@.entry(k@) == Some(item@)
                    &&& final(self)@ =~~= old(self)@.replace(k@, final(item)@)
                },
                None => old(self)@.entry(k@) is None && final(self)@ == old(self)@,
            },
    {
        match self.locate(k) {
            Some((i, j)) => match &mut self.items[i] {
                Some(chain) => Some(&mut chain[j]),
                None => None,
            },
            None => None,
        }
    }

    /// The item stored under `k`, to be changed in place. The table stays
    /// well formed as long as the item keeps its key.
    pub fn get_item_mut(&mut self, k: &str) -> (found: Option<&mut HashItem<T>>)
        ensures
            match found {
                Some(item) => {
                    &&& old(self)@.entry(k@) == Some(item@)
                    &&& final(self)@ == old(self)@.replace(k@, final(item)@)
                    &&& old(self).wf() && final(item)@.key == k@ ==> final(self).wf()
                },
                None => old(self)@.entry(k@) is None && final(self)@ == old(self)@,
            },
    {
        proof {
            if self.wf() {
                assert forall|e: Entry<T>| e.key == k@ implies #[trigger] self@.replace(
                    k@,
                    e,
                ).wf() by {
                    lemma_replace_keeps_wf(self@, k@, e);
                }
            }
        }
        self.chain_item_mut(k)
    }

    /// The value stored under `k`, to be changed in place.
    pub fn get_mut(&mut self, k: &str) -> (found: Option<&mut T>)
        ensures
            match found {
                Some(value) => {
                    &&& old(self)@.lookup(k@) == Some(*value)
                    &&& final(self)@ == old(self)@.insert(k@, *final(value))
                    &&& forall|other: Seq<char>| #[trigger]
                        final(self)@.lookup(other) == (if other == k@ {
                            Some(*final(value))
                        } else {
                            old(self)@.lookup(other)
                        })
                    &&& old(self).wf() ==> final(self).wf()
                },
                None => old(self)@.lookup(k@) is None && final(self)@ == old(self)@,
            },
    {
        proof {
            if self@.capacity() > 0 {
                assert forall|value: T, other: Seq<char>| #[trigger]
                    self@.insert(k@, value).lookup(other) == (if other == k@ {
                        Some(value)
                    } else {
                        self@.lookup(other)
                    }) by {
                    lemma_lookup_after_insert(self@, k@, value, other);
                }
            }
        }
        match self.get_item_mut(k) {
            Some(item) => Some(&mut item.v),
            None => None,
        }
    }

    /// The value stored under `k`.
    pub fn get(&self, k: &str) -> (found: Option<&T>)
        ensures
            match found {
                Some(value) => self@.lookup(k@) == Some(*value),
                None => self@.lookup(k@) is None,
            },
    {
        match self.get_item(k) {
            Some(item) => Some(&item.v),
            None => None,
        }
    }
}

impl<T> HashS2T<T> {
    /// The items in bucket order and, within a bucket, in the order in which
    /// they were put there. The table is left as it is.
    pub fn iter(&self) -> (items: std::vec::IntoIter<&HashItem<T>>)
        ensures
            borrowed_views(items.remaining()) == self@.entries(),
    {
        let mut out: Vec<&HashItem<T>> = Vec::new();
        let mut i: usize = 0;
        assert(self@.buckets.take(0) =~= Seq::empty());
        while i < self.items.len()
            invariant
                i <= self.items.len(),
                borrowed_views(out@) == flattened(self@.buckets.take(i as int)),
            decreases self.items.len() - i,
        {
            let ghost done = flattened(self@.buckets.take(i as int));
            proof {
                assert(self@.buckets.take(i + 1).drop_last() =~= self@.buckets.take(i as int));
                assert(self@.buckets.take(i + 1).last() == node_view(self.items@[i as int]));
            }
            match &self.items[i] {
                Some(chain) => {
                    let mut j: usize = 0;
                    assert(done + chain_view(*chain).take(0) =~= done);
                    while j < chain.len()
                        invariant
                            j <= chain.len(),
                            borrowed_views(out@) == done + chain_view(*chain).take(j as int),
                        decreases chain.len() - j,
                    {
                        let ghost before = out@;
                        out.push(&chain[j]);
                        proof {
                            assert(borrowed_views(out@) =~= borrowed_views(before).push(
                                chain@[j as int]@,
                            ));
                            assert(done + chain_view(*chain).take(j + 1) =~= (done + chain_view(
                                *chain,
                            ).take(j as int)).push(chain@[j as int]@));
                        }
                        j += 1;
                    }
                    assert(chain_view(*chain).take(chain.len() as int) =~= chain_view(*chain));
                },
                None => {
                    assert(done + Seq::<Entry<T>>::empty() =~= done);
                },
            }
            i += 1;
        }
        assert(self@.buckets.take(self.items.len() as int) =~= self@.buckets);
        out.into_iter()
    }

    /// The items in the order of `iter`, handed over. The table is used up.
    pub fn into_iter(self) -> (items: std::vec::IntoIter<HashItem<T>>)
        ensures
            owned_views(items.remaining()) == self@.entries(),
    {
        let ghost buckets = self@.buckets;
        let ghost nodes = self.items@;
        let mut out: Vec<HashItem<T>> = Vec::new();
        assert(buckets.take(0) =~= Seq::empty());
        for node in it: self.items
            invariant
                it.seq() == nodes,
                buckets == nodes.map_values(|node: Option<Vec<HashItem<T>>>| node_view(node)),
                owned_views(out@) == flattened(buckets.take(it.index())),
        {
            let ghost i = it.index();
            let ghost done = out@;
            proof {
                assert(buckets.take(i + 1).drop_last() =~= buckets.take(i));
                assert(buckets.take(i + 1).last() == node_view(node));
            }
            match node {
                Some(chain) => {
                    let mut chain = chain;
                    let ghost moved = chain@;
                    out.append(&mut chain);
                    assert(owned_views(out@) =~= owned_views(done) + owned_views(moved));
                },
                None => {
                    assert(owned_views(done) + Seq::<Entry<T>>::empty() =~= owned_views(done));
                },
            }
        }
        assert(buckets.take(nodes.len() as int) =~= buckets);
        out.into_iter()
    }
}

impl<T> IntoIterator for HashS2T<T> {
    type Item = HashItem<T>;

    type IntoIter = std::vec::IntoIter<HashItem<T>>;

    /// The items in iteration order, handed over.
    fn into_iter(self) -> (items: std::vec::IntoIter<HashItem<T>>)
        ensures
            owned_views(items.remaining()) == self@.entries(),
    {
        HashS2T::into_iter(self)
    }
}

impl<'a, T> IntoIterator for &'a HashS2T<T> {
    type Item = &'a HashItem<T>;

    type IntoIter = std::vec::IntoIter<&'a HashItem<T>>;

    /// The items in iteration order, borrowed.
    fn into_iter(self) -> (items: std::vec::IntoIter<&'a HashItem<T>>)
        ensures
            borrowed_views(items.remaining()) == self@.entries(),
    {
        self.iter()
    }
}

impl<T> Default for HashS2T<T> {
    /// Makes a table of `DEFAULT_HASH2ST_SIZE` unallocated buckets.
    fn default() -> (table: Self)
        ensures
            table@ == TableModel::<T>::empty(DEFAULT_HASH2ST_SIZE as nat),
            table.wf(),
            forall|key: Seq<char>| (#[trigger] table@.lookup(key)) is None,
    {
        HashS2T::with_capacity(DEFAULT_HASH2ST_SIZE)
    }
}

} // verus!
