//! A small map kept as a list of entries in the order in which their keys
//! came first. It serves where keys are numbers or pairs of numbers and
//! the entries are few: shards, generations, pinned generations.

use vstd::prelude::*;

verus! {

/// A key of a `ListMap`: a value that can be copied and compared.
pub trait Key: Copy {
    /// Whether two keys are the same.
    fn same(&self, other: &Self) -> (r: bool)
        ensures
            r == (*self == *other),
    ;
}

impl Key for u64 {
    fn same(&self, other: &u64) -> (r: bool) {
        *self == *other
    }
}

/// A shard and one of its generations.
#[derive(Debug, Clone, Copy, PartialEq, Eq, Structural)]
pub struct ShardGen {
    pub shard: u64,
    pub generation: u64,
}

impl Key for ShardGen {
    fn same(&self, other: &ShardGen) -> (r: bool) {
        self.shard == other.shard && self.generation == other.generation
    }
}

/// Whether no two entries of `pairs` have the same key.
pub open spec fn distinct_keys<K, V>(pairs: Seq<(K, V)>) -> bool {
    forall|i: int, j: int|
        0 <= i < j < pairs.len() ==> (#[trigger] pairs[i]).0 != (#[trigger] pairs[j]).0
}

/// Whether an entry of `pairs` has the key `k`.
pub open spec fn holds<K, V>(pairs: Seq<(K, V)>, k: K) -> bool {
    exists|i: int| 0 <= i < pairs.len() && (#[trigger] pairs[i]).0 == k
}

/// The index of the entry of `pairs` with the key `k`.
pub open spec fn place_of<K, V>(pairs: Seq<(K, V)>, k: K) -> int {
    choose|i: int| 0 <= i < pairs.len() && (#[trigger] pairs[i]).0 == k
}

/// The value that `pairs` has under `k`, if any.
pub open spec fn value_at<K, V>(pairs: Seq<(K, V)>, k: K) -> Option<V> {
    if holds(pairs, k) {
        Some(pairs[place_of(pairs, k)].1)
    } else {
        None
    }
}

/// `pairs` with `k` bound to `v`: the entry with that key gets the value,
/// or a new entry comes last.
pub open spec fn put<K, V>(pairs: Seq<(K, V)>, k: K, v: V) -> Seq<(K, V)> {
    if holds(pairs, k) {
        pairs.update(place_of(pairs, k), (k, v))
    } else {
        pairs.push((k, v))
    }
}

/// With distinct keys, the entry at an index is the one its key finds.
pub proof fn lemma_place<K, V>(pairs: Seq<(K, V)>, i: int)
    requires
        distinct_keys(pairs),
        0 <= i < pairs.len(),
    ensures
        holds(pairs, pairs[i].0),
        place_of(pairs, pairs[i].0) == i,
        value_at(pairs, pairs[i].0) == Some(pairs[i].1),
{
    let k = pairs[i].0;
    assert(pairs[i].0 == k);
    let j = place_of(pairs, k);
    if j < i {
        assert(pairs[j].0 != pairs[i].0);
    } else if i < j {
        assert(pairs[i].0 != pairs[j].0);
    }
}

/// Binding a key keeps the keys distinct, makes the key map to the value
/// and leaves every other key as it was.
pub proof fn lemma_put<K, V>(pairs: Seq<(K, V)>, k: K, v: V, o: K)
    requires
        distinct_keys(pairs),
    ensures
        distinct_keys(put(pairs, k, v)),
        value_at(put(pairs, k, v), o) == (if o == k {
            Some(v)
        } else {
            value_at(pairs, o)
        }),
{
    let out = put(pairs, k, v);
    if holds(pairs, k) {
        let p = place_of(pairs, k);
        assert forall|i: int, j: int| 0 <= i < j < out.len() implies (#[trigger] out[i]).0 != (
        #[trigger] out[j]).0 by {
            assert(out[i].0 == pairs[i].0);
            assert(out[j].0 == pairs[j].0);
        }
        assert(out[p] == (k, v));
        lemma_place(out, p);
        if o != k {
            if holds(pairs, o) {
                let i = place_of(pairs, o);
                assert(out[i] == pairs[i]);
                lemma_place(out, i);
                lemma_place(pairs, i);
            } else if holds(out, o) {
                let i = place_of(out, o);
                assert(pairs[i].0 == o);
            }
        }
    } else {
        let p = pairs.len() as int;
        assert forall|i: int, j: int| 0 <= i < j < out.len() implies (#[trigger] out[i]).0 != (
        #[trigger] out[j]).0 by {
            if j == p {
                assert(out[i] == pairs[i]);
                assert(pairs[i].0 != k);
            } else {
                assert(out[i] == pairs[i] && out[j] == pairs[j]);
            }
        }
        assert(out[p] == (k, v));
        lemma_place(out, p);
        if o != k {
            if holds(pairs, o) {
                let i = place_of(pairs, o);
                assert(out[i] == pairs[i]);
                lemma_place(out, i);
                lemma_place(pairs, i);
            } else if holds(out, o) {
                let i = place_of(out, o);
                assert(pairs[i].0 == o);
            }
        }
    }
}

/// A map kept as a list of entries with distinct keys.
#[derive(Debug)]
pub struct ListMap<K, V> {
    entries: Vec<(K, V)>,
}

impl<K, V> ListMap<K, V> {
    /// The entries, in the order in which their keys came first.
    pub closed spec fn pairs(&self) -> Seq<(K, V)> {
        self.entries@
    }

    #[verifier::type_invariant]
    spec fn distinct(&self) -> bool {
        distinct_keys(self.entries@)
    }

    /// The value under `k`, if any.
    pub open spec fn value_of(&self, k: K) -> Option<V> {
        value_at(self.pairs(), k)
    }
}

impl<K: Key, V> ListMap<K, V> {

    /// An empty map.
    pub fn new() -> (r: Self)
        ensures
            r.pairs() == Seq::<(K, V)>::empty(),
    {
        ListMap { entries: Vec::new() }
    }

    /// The number of entries.
    pub fn len(&self) -> (n: usize)
        ensures
            n == self.pairs().len(),
    {
        self.entries.len()
    }

    /// Whether the map has no entry.
    pub fn is_empty(&self) -> (r: bool)
        ensures
            r == (self.pairs().len() == 0),
    {
        self.entries.len() == 0
    }

    /// The entries, in the order in which their keys came first.
    pub fn entries(&self) -> (r: &Vec<(K, V)>)
        ensures
            r@ == self.pairs(),
            distinct_keys(self.pairs()),
    {
        proof {
            use_type_invariant(self);
        }
        &self.entries
    }

    /// The index of the entry with the key `k`.
    fn locate(&self, k: &K) -> (r: Option<usize>)
        ensures
            match r {
                Some(i) => holds(self.pairs(), *k) && i == place_of(self.pairs(), *k) && i
                    < self.pairs().len(),
                None => !holds(self.pairs(), *k),
            },
            distinct_keys(self.pairs()),
    {
        proof {
            use_type_invariant(self);
        }
        let mut i: usize = 0;
        while i < self.entries.len()
            invariant
                i <= self.entries.len(),
                distinct_keys(self.entries@),
                forall|j: int| 0 <= j < i ==> (#[trigger] self.entries@[j]).0 != *k,
            decreases self.entries.len() - i,
        {
            if self.entries[i].0.same(k) {
                proof {
                    lemma_place(self.entries@, i as int);
                }
                return Some(i);
            }
            i += 1;
        }
        None
    }

    /// The value under `k`, if any.
    pub fn get(&self, k: &K) -> (r: Option<&V>)
        ensures
            match r {
                Some(v) => self.value_of(*k) == Some(*v),
                None => self.value_of(*k) is None,
            },
            distinct_keys(self.pairs()),
    {
        match self.locate(k) {
            Some(i) => Some(&self.entries[i].1),
            None => None,
        }
    }

    /// Whether an entry has the key `k`.
    pub fn contains_key(&self, k: &K) -> (r: bool)
        ensures
            r == holds(self.pairs(), *k),
    {
        self.locate(k).is_some()
    }

    /// Binds `k` to `v`, replacing the value it had.
    pub fn insert(&mut self, k: K, v: V)
        ensures
            final(self).pairs() == put(old(self).pairs(), k, v),
            distinct_keys(final(self).pairs()),
    {
        let at = self.locate(&k);
        let mut taken: Vec<(K, V)> = Vec::new();
        std::mem::swap(&mut self.entries, &mut taken);
        match at {
            Some(i) => {
                taken.set(i, (k, v));
            },
            None => {
                taken.push((k, v));
            },
        }
        proof {
            lemma_put(old(self).pairs(), k, v, k);
            assert(taken@ =~= put(old(self).pairs(), k, v));
        }
        self.entries = taken;
    }
}

} // verus!
