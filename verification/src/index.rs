//! Finding items by key.

use std::collections::HashMap;
use vstd::prelude::*;
use vstd::std_specs::hash::*;

verus! {

/// The first place of `k` at or after `i`; the length where there is none.
pub open spec fn place_from(keys: Seq<u64>, k: u64, i: int) -> int
    decreases keys.len() - i,
{
    if i >= keys.len() {
        keys.len() as int
    } else if keys[i] == k {
        i
    } else {
        place_from(keys, k, i + 1)
    }
}

/// The first place of `k`.
pub open spec fn place(keys: Seq<u64>, k: u64) -> int {
    place_from(keys, k, 0)
}

pub proof fn lemma_place_from(keys: Seq<u64>, k: u64, i: int)
    requires
        0 <= i <= keys.len(),
    ensures
        i <= place_from(keys, k, i) <= keys.len(),
        place_from(keys, k, i) < keys.len() ==> keys[place_from(keys, k, i)] == k,
        forall|j: int| i <= j < place_from(keys, k, i) ==> keys[j] != k,
    decreases keys.len() - i,
{
    if i < keys.len() && keys[i] != k {
        lemma_place_from(keys, k, i + 1);
    }
}

pub proof fn lemma_place(keys: Seq<u64>, k: u64)
    ensures
        0 <= place(keys, k) <= keys.len(),
        place(keys, k) < keys.len() ==> keys[place(keys, k)] == k,
        forall|j: int| 0 <= j < place(keys, k) ==> keys[j] != k,
{
    lemma_place_from(keys, k, 0);
}

/// The first place is where the key stands for the first time.
pub proof fn lemma_place_is(keys: Seq<u64>, k: u64, p: int)
    requires
        0 <= p <= keys.len(),
        p < keys.len() ==> keys[p] == k,
        forall|j: int| 0 <= j < p ==> keys[j] != k,
    ensures
        place(keys, k) == p,
{
    lemma_place(keys, k);
    let q = place(keys, k);
    if q < p {
        assert(keys[q] != k);
    }
}

/// A key at the end stands after all others.
pub proof fn lemma_place_push(keys: Seq<u64>, x: u64, k: u64)
    ensures
        place(keys.push(x), k) == if place(keys, k) < keys.len() {
            place(keys, k)
        } else if k == x {
            keys.len() as int
        } else {
            keys.len() as int + 1
        },
{
    lemma_place(keys, k);
    let all = keys.push(x);
    let p = if place(keys, k) < keys.len() {
        place(keys, k)
    } else if k == x {
        keys.len() as int
    } else {
        keys.len() as int + 1
    };
    assert forall|j: int| 0 <= j < p implies all[j] != k by {
        if j < keys.len() {
            assert(all[j] == keys[j]);
        }
    }
    lemma_place_is(all, k, p);
}

/// Where the keys of a list stand for the first time.
pub struct Index {
    map: HashMap<u64, usize>,
}

impl Index {
    /// Whether the index is that of these keys.
    pub closed spec fn of(self, keys: Seq<u64>) -> bool {
        &&& forall|k: u64| #[trigger] self.map@.contains_key(k) <==> place(keys, k) < keys.len()
        &&& forall|k: u64| #[trigger] self.map@.contains_key(k) ==> self.map@[k] == place(keys, k)
    }

    /// The index of no keys.
    pub(crate) fn new() -> (r: Index)
        ensures
            r.of(seq![]),
    {
        broadcast use group_hash_axioms;

        Index { map: HashMap::new() }
    }

    /// Where a key stands for the first time.
    pub(crate) fn find(&self, k: u64, Ghost(keys): Ghost<Seq<u64>>) -> (r: Option<usize>)
        requires
            self.of(keys),
        ensures
            match r {
                Some(i) => i == place(keys, k) && i < keys.len() && keys[i as int] == k,
                None => place(keys, k) == keys.len(),
            },
    {
        broadcast use group_hash_axioms;

        proof {
            lemma_place(keys, k);
        }
        match self.map.get(&k) {
            Some(i) => Some(*i),
            None => None,
        }
    }

    /// Takes in a key that stands at place `i`, behind all others.
    pub(crate) fn append(&mut self, k: u64, i: usize, Ghost(keys): Ghost<Seq<u64>>)
        requires
            old(self).of(keys),
            i == keys.len(),
        ensures
            final(self).of(keys.push(k)),
    {
        broadcast use group_hash_axioms;

        if !self.map.contains_key(&k) {
            self.map.insert(k, i);
        }
        proof {
            let all = keys.push(k);
            assert forall|x: u64| #[trigger]
                self.map@.contains_key(x) <==> place(all, x) < all.len() by {
                lemma_place_push(keys, k, x);
                lemma_place(keys, x);
                assert(old(self).map@.contains_key(x) <==> place(keys, x) < keys.len());
            }
            assert forall|x: u64| #[trigger]
                self.map@.contains_key(x) implies self.map@[x] == place(all, x) by {
                lemma_place_push(keys, k, x);
                lemma_place(keys, x);
                assert(old(self).map@.contains_key(x) <==> place(keys, x) < keys.len());
            }
        }
    }
}

} // verus!
