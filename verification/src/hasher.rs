//! The hash function: the sum of a key's code points, reduced modulo the
//! number of buckets.

use vstd::arithmetic::div_mod::lemma_add_mod_noop_right;
use vstd::prelude::*;
use vstd::seq_lib::{to_multiset_contains, to_multiset_len, to_multiset_remove};

verus! {

/// The sum of the code points of `key`.
pub open spec fn code_point_sum(key: Seq<char>) -> int
    decreases key.len(),
{
    if key.len() == 0 {
        0
    } else {
        code_point_sum(key.drop_last()) + key.last() as int
    }
}

/// The bucket that `key` belongs to in a table of `capacity` buckets.
pub open spec fn bucket_index(key: Seq<char>, capacity: int) -> int
    recommends
        capacity > 0,
{
    code_point_sum(key) % capacity
}

/// Taking one character out of a key takes its code point out of the sum.
pub proof fn lemma_sum_without(key: Seq<char>, j: int)
    requires
        0 <= j < key.len(),
    ensures
        code_point_sum(key) == code_point_sum(key.remove(j)) + key[j] as int,
    decreases key.len(),
{
    if j == key.len() - 1 {
        assert(key.remove(j) =~= key.drop_last());
    } else {
        assert(key.remove(j).drop_last() =~= key.drop_last().remove(j));
        lemma_sum_without(key.drop_last(), j);
    }
}

/// Keys made of the same characters, in whatever order, have the same sum.
pub proof fn lemma_sum_ignores_order(a: Seq<char>, b: Seq<char>)
    requires
        a.to_multiset() == b.to_multiset(),
    ensures
        code_point_sum(a) == code_point_sum(b),
    decreases a.len(),
{
    to_multiset_len(a);
    to_multiset_len(b);
    if a.len() > 0 {
        let c = a.last();
        assert(a.contains(c));
        to_multiset_contains(a, c);
        to_multiset_contains(b, c);
        let j = choose|j: int| 0 <= j < b.len() && b[j] == c;
        assert(a.remove(a.len() - 1) =~= a.drop_last());
        to_multiset_remove(a, a.len() - 1);
        to_multiset_remove(b, j);
        lemma_sum_ignores_order(a.drop_last(), b.remove(j));
        lemma_sum_without(b, j);
    }
}

/// The code point of `c` as a number.
fn code_point(c: char) -> (code: u32)
    ensures
        code as int == c as int,
{
    c as u32
}

/// Maps a key to its bucket in a table of `len` buckets.
///
/// The running sum is reduced at every step, so no key is long enough to
/// overflow it.
pub fn default_hash(s: &str, len: usize) -> (index: usize)
    requires
        len > 0,
    ensures
        index == bucket_index(s@, len as int),
        index < len,
{
    let mut acc: usize = 0;
    assert(code_point_sum(s@.take(0)) == 0);
    for c in it: s.chars()
        invariant
            len > 0,
            acc < len,
            it.seq() == s@,
            acc == code_point_sum(s@.take(it.index())) % (len as int),
    {
        let ghost i = it.index();
        let ghost prefix = s@.take(i);
        let wide: u128 = acc as u128 + code_point(c) as u128;
        proof {
            assert(s@.take(i + 1).drop_last() =~= prefix);
            lemma_add_mod_noop_right(c as int, code_point_sum(prefix), len as int);
        }
        acc = (wide % (len as u128)) as usize;
    }
    proof {
        assert(s@.take(s@.len() as int) =~= s@);
    }
    acc
}

} // verus!
