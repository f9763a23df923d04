//! An ordered map from strings to values, kept as a vector of entries
//! sorted by key. Keys are ordered character by character, which is the
//! order of their UTF-8 bytes, so walking the entries visits field names in
//! the order a sorted dictionary would.

use vstd::prelude::*;
use crate::text::chars_of;

verus! {

/// How one text stands to another in lexicographic order.
#[derive(Debug, Clone, Copy, PartialEq, Eq, Structural)]
pub enum Place {
    Before,
    Same,
    After,
}

/// Whether `a` comes strictly before `b`: at the first position where
/// they differ `a` has the smaller character, or `a` is a proper prefix
/// of `b`.
pub open spec fn lex_lt(a: Seq<char>, b: Seq<char>) -> bool {
    exists|k: int| parts_at(a, b, k)
}

/// Whether `a` and `b` agree on their first `k` characters and `a` is the
/// smaller at position `k`: it ends there, or has the smaller character.
pub open spec fn parts_at(a: Seq<char>, b: Seq<char>, k: int) -> bool {
    0 <= k <= a.len() && k <= b.len() && (forall|i: int| 0 <= i < k ==> a[i] == b[i]) && (if k
        == a.len() {
        k < b.len()
    } else {
        k < b.len() && (a[k] as u32) < (b[k] as u32)
    })
}

pub proof fn lemma_lex_lt_transitive(a: Seq<char>, b: Seq<char>, c: Seq<char>)
    requires
        lex_lt(a, b),
        lex_lt(b, c),
    ensures
        lex_lt(a, c),
{
    let k1 = choose|k: int| parts_at(a, b, k);
    let k2 = choose|k: int| parts_at(b, c, k);
    if k1 <= k2 {
        assert(forall|i: int| 0 <= i < k1 ==> a[i] == c[i]);
        if k1 < k2 {
            assert(b[k1] == c[k1]);
        }
        assert(parts_at(a, c, k1));
    } else {
        assert(a[k2] == b[k2]);
        assert(forall|i: int| 0 <= i < k2 ==> a[i] == c[i]);
        assert(parts_at(a, c, k2));
    }
}

pub proof fn lemma_lex_lt_asymmetric(a: Seq<char>, b: Seq<char>)
    requires
        lex_lt(a, b),
    ensures
        !lex_lt(b, a),
        a != b,
{
    let k1 = choose|k: int| parts_at(a, b, k);
    if lex_lt(b, a) {
        let k2 = choose|k: int| parts_at(b, a, k);
        if k1 < k2 {
            assert(b[k1] == a[k1]);
        } else if k2 < k1 {
            assert(a[k2] == b[k2]);
        }
    }
}

/// Compares two texts character by character.
pub fn lex_order(a: &Vec<char>, b: &Vec<char>) -> (r: Place)
    ensures
        match r {
            Place::Before => lex_lt(a@, b@),
            Place::Same => a@ == b@,
            Place::After => lex_lt(b@, a@),
        },
{
    let mut i: usize = 0;
    while i < a.len() && i < b.len()
        invariant
            i <= a.len(),
            i <= b.len(),
            forall|k: int| 0 <= k < i ==> a@[k] == b@[k],
        decreases a.len() - i,
    {
        let x: u32 = a[i] as u32;
        let y: u32 = b[i] as u32;
        if x < y {
            proof {
                assert(parts_at(a@, b@, i as int));
            }
            return Place::Before;
        }
        if y < x {
            proof {
                assert(parts_at(b@, a@, i as int));
            }
            return Place::After;
        }
        proof {
            vstd::utf8::char_u32_cast(a@[i as int], x);
            vstd::utf8::char_u32_cast(b@[i as int], y);
        }
        i += 1;
    }
    if i < b.len() {
        proof {
            assert(parts_at(a@, b@, i as int));
        }
        Place::Before
    } else if i < a.len() {
        proof {
            assert(parts_at(b@, a@, i as int));
        }
        Place::After
    } else {
        proof {
            assert(a@ =~= b@);
        }
        Place::Same
    }
}

/// Whether the keys of `pairs` are strictly increasing.
pub open spec fn keys_sorted<V>(pairs: Seq<(Seq<char>, V)>) -> bool {
    forall|i: int, j: int| 0 <= i < j < pairs.len() ==> lex_lt(#[trigger] pairs[i].0, #[trigger] pairs[j].0)
}

/// Whether some entry of `pairs` has the key `k`.
pub open spec fn has_key<V>(pairs: Seq<(Seq<char>, V)>, k: Seq<char>) -> bool {
    exists|i: int| 0 <= i < pairs.len() && #[trigger] pairs[i].0 == k
}

/// The index of the entry of `pairs` with the key `k`.
pub open spec fn index_of_key<V>(pairs: Seq<(Seq<char>, V)>, k: Seq<char>) -> int {
    choose|i: int| 0 <= i < pairs.len() && #[trigger] pairs[i].0 == k
}

/// The value that `pairs` holds under the key `k`, if any.
pub open spec fn lookup<V>(pairs: Seq<(Seq<char>, V)>, k: Seq<char>) -> Option<V> {
    if has_key(pairs, k) {
        Some(pairs[index_of_key(pairs, k)].1)
    } else {
        None
    }
}

/// The number of leading entries of `pairs` whose key comes before `k`.
pub open spec fn rank<V>(pairs: Seq<(Seq<char>, V)>, k: Seq<char>) -> int
    decreases pairs.len(),
{
    if pairs.len() == 0 || !lex_lt(pairs[0].0, k) {
        0
    } else {
        1 + rank(pairs.drop_first(), k)
    }
}

/// `pairs` with `k` bound to `v`: the entry with that key is replaced, or
/// a new entry is put where the order wants it.
pub open spec fn upserted<V>(pairs: Seq<(Seq<char>, V)>, k: Seq<char>, v: V) -> Seq<
    (Seq<char>, V),
> {
    let p = rank(pairs, k);
    if p < pairs.len() && pairs[p].0 == k {
        pairs.update(p, (k, v))
    } else {
        pairs.insert(p, (k, v))
    }
}

pub proof fn lemma_rank_bounds<V>(pairs: Seq<(Seq<char>, V)>, k: Seq<char>)
    ensures
        0 <= rank(pairs, k) <= pairs.len(),
        forall|i: int| 0 <= i < rank(pairs, k) ==> lex_lt(#[trigger] pairs[i].0, k),
        rank(pairs, k) < pairs.len() ==> !lex_lt(pairs[rank(pairs, k)].0, k),
    decreases pairs.len(),
{
    if pairs.len() == 0 || !lex_lt(pairs[0].0, k) {
    } else {
        let rest = pairs.drop_first();
        lemma_rank_bounds(rest, k);
        assert forall|i: int| 0 <= i < rank(pairs, k) implies lex_lt(#[trigger] pairs[i].0, k) by {
            if i > 0 {
                assert(pairs[i] == rest[i - 1]);
            }
        }
        if rank(pairs, k) < pairs.len() {
            assert(pairs[rank(pairs, k)] == rest[rank(rest, k)]);
        }
    }
}

/// The rank is the one index that parts the smaller keys from the rest.
pub proof fn lemma_rank_is<V>(pairs: Seq<(Seq<char>, V)>, k: Seq<char>, p: int)
    requires
        0 <= p <= pairs.len(),
        forall|i: int| 0 <= i < p ==> lex_lt(#[trigger] pairs[i].0, k),
        p < pairs.len() ==> !lex_lt(pairs[p].0, k),
    ensures
        rank(pairs, k) == p,
    decreases pairs.len(),
{
    if pairs.len() == 0 || !lex_lt(pairs[0].0, k) {
        if p > 0 {
            assert(lex_lt(pairs[0].0, k));
        }
    } else {
        let rest = pairs.drop_first();
        assert(p > 0);
        assert forall|i: int| 0 <= i < p - 1 implies lex_lt(#[trigger] rest[i].0, k) by {
            assert(rest[i] == pairs[i + 1]);
        }
        if p - 1 < rest.len() {
            assert(rest[p - 1] == pairs[p]);
        }
        lemma_rank_is(rest, k, p - 1);
    }
}

/// From the rank on, an entry has the key `k` (only at the rank itself)
/// or a key that comes after `k`.
pub proof fn lemma_after_rank<V>(pairs: Seq<(Seq<char>, V)>, k: Seq<char>, j: int)
    requires
        keys_sorted(pairs),
        rank(pairs, k) <= j < pairs.len(),
    ensures
        (j == rank(pairs, k) && pairs[j].0 == k) || lex_lt(k, pairs[j].0),
{
    lemma_rank_bounds(pairs, k);
    let p = rank(pairs, k);
    lemma_trichotomy(pairs[p].0, k);
    if j > p {
        assert(lex_lt(pairs[p].0, pairs[j].0));
        if pairs[p].0 != k {
            lemma_lex_lt_transitive(k, pairs[p].0, pairs[j].0);
        }
    }
}

/// A key is present exactly when it stands at its rank.
pub proof fn lemma_has_key_at_rank<V>(pairs: Seq<(Seq<char>, V)>, k: Seq<char>)
    requires
        keys_sorted(pairs),
    ensures
        has_key(pairs, k) <==> (rank(pairs, k) < pairs.len() && pairs[rank(pairs, k)].0 == k),
        has_key(pairs, k) ==> index_of_key(pairs, k) == rank(pairs, k),
{
    lemma_rank_bounds(pairs, k);
    let p = rank(pairs, k);
    if has_key(pairs, k) {
        let i = index_of_key(pairs, k);
        if i < p {
            lemma_lex_lt_asymmetric(pairs[i].0, k);
        } else {
            lemma_after_rank(pairs, k, i);
            if lex_lt(k, pairs[i].0) {
                lemma_lex_lt_asymmetric(k, pairs[i].0);
            }
        }
    } else if p < pairs.len() && pairs[p].0 == k {
        assert(has_key(pairs, k));
    }
}

/// Binding a key keeps the keys sorted.
pub proof fn lemma_upserted_sorted<V>(pairs: Seq<(Seq<char>, V)>, k: Seq<char>, v: V)
    requires
        keys_sorted(pairs),
    ensures
        keys_sorted(upserted(pairs, k, v)),
        upserted(pairs, k, v).len() == pairs.len() + (if has_key(pairs, k) {
            0int
        } else {
            1int
        }),
{
    lemma_rank_bounds(pairs, k);
    lemma_has_key_at_rank(pairs, k);
    let p = rank(pairs, k);
    let out = upserted(pairs, k, v);
    if p < pairs.len() && pairs[p].0 == k {
        assert forall|i: int, j: int| 0 <= i < j < out.len() implies lex_lt(
            #[trigger] out[i].0,
            #[trigger] out[j].0,
        ) by {
            assert(out[i].0 == pairs[i].0);
            assert(out[j].0 == pairs[j].0);
        }
    } else {
        assert forall|i: int, j: int| 0 <= i < j < out.len() implies lex_lt(
            #[trigger] out[i].0,
            #[trigger] out[j].0,
        ) by {
            if j < p {
                assert(out[i] == pairs[i] && out[j] == pairs[j]);
            } else if j == p {
                assert(out[i] == pairs[i]);
            } else if i < p {
                assert(out[i] == pairs[i] && out[j] == pairs[j - 1]);
            } else if i == p {
                assert(out[j] == pairs[j - 1]);
                lemma_after_rank(pairs, k, j - 1);
            } else {
                assert(out[i] == pairs[i - 1] && out[j] == pairs[j - 1]);
            }
        }
    }
}

/// After binding `k` to `v`, `k` maps to `v` and every other key to what
/// it mapped to before.
pub proof fn lemma_upserted_lookup<V>(pairs: Seq<(Seq<char>, V)>, k: Seq<char>, v: V, o: Seq<char>)
    requires
        keys_sorted(pairs),
    ensures
        lookup(upserted(pairs, k, v), o) == (if o == k {
            Some(v)
        } else {
            lookup(pairs, o)
        }),
{
    lemma_rank_bounds(pairs, k);
    lemma_has_key_at_rank(pairs, k);
    lemma_upserted_sorted(pairs, k, v);
    let p = rank(pairs, k);
    let out = upserted(pairs, k, v);
    let replace = p < pairs.len() && pairs[p].0 == k;
    assert(out[p] == (k, v));
    if o == k {
        lemma_lookup_at(out, p);
    } else if has_key(pairs, o) {
        let i = index_of_key(pairs, o);
        let i2 = if replace || i < p {
            i
        } else {
            i + 1
        };
        assert(out[i2] == pairs[i]);
        lemma_lookup_at(out, i2);
        lemma_lookup_at(pairs, i);
    } else if has_key(out, o) {
        let i = index_of_key(out, o);
        if replace || i < p {
            assert(pairs[i].0 == o);
        } else {
            assert(pairs[i - 1].0 == o);
        }
    }
}

/// Of two texts one comes first, or they are equal.
pub proof fn lemma_trichotomy(a: Seq<char>, b: Seq<char>)
    ensures
        lex_lt(a, b) || a == b || lex_lt(b, a),
{
    lemma_trichotomy_from(a, b, 0);
}

proof fn lemma_trichotomy_from(a: Seq<char>, b: Seq<char>, k: int)
    requires
        0 <= k <= a.len(),
        k <= b.len(),
        forall|i: int| 0 <= i < k ==> a[i] == b[i],
    ensures
        lex_lt(a, b) || a == b || lex_lt(b, a),
    decreases a.len() - k,
{
    if k == a.len() {
        if k == b.len() {
            assert(a =~= b);
        } else {
            assert(parts_at(a, b, k));
        }
    } else if k == b.len() {
        assert(parts_at(b, a, k));
    } else if (a[k] as u32) < (b[k] as u32) {
        assert(parts_at(a, b, k));
    } else if (b[k] as u32) < (a[k] as u32) {
        assert(parts_at(b, a, k));
    } else {
        vstd::utf8::char_u32_cast(a[k], a[k] as u32);
        vstd::utf8::char_u32_cast(b[k], b[k] as u32);
        lemma_trichotomy_from(a, b, k + 1);
    }
}

/// In a sorted sequence the entry at an index is the one its key looks up.
pub proof fn lemma_lookup_at<V>(pairs: Seq<(Seq<char>, V)>, i: int)
    requires
        keys_sorted(pairs),
        0 <= i < pairs.len(),
    ensures
        has_key(pairs, pairs[i].0),
        index_of_key(pairs, pairs[i].0) == i,
        lookup(pairs, pairs[i].0) == Some(pairs[i].1),
{
    let k = pairs[i].0;
    assert(pairs[i].0 == k);
    let j = index_of_key(pairs, k);
    if j < i {
        lemma_lex_lt_asymmetric(pairs[j].0, pairs[i].0);
    } else if i < j {
        lemma_lex_lt_asymmetric(pairs[i].0, pairs[j].0);
    }
}

/// An ordered map from strings to values.
#[derive(Debug)]
pub struct StrMap<V> {
    entries: Vec<(String, V)>,
}

/// The texts and values of a vector of entries.
pub open spec fn pairs_of<V>(entries: Seq<(String, V)>) -> Seq<(Seq<char>, V)> {
    entries.map_values(|e: (String, V)| (e.0@, e.1))
}

impl<V> StrMap<V> {
    /// The entries, by increasing key.
    pub closed spec fn pairs(&self) -> Seq<(Seq<char>, V)> {
        pairs_of(self.entries@)
    }

    #[verifier::type_invariant]
    spec fn sorted(&self) -> bool {
        keys_sorted(self.pairs())
    }

    /// The value under `k`, if any.
    pub open spec fn value_of(&self, k: Seq<char>) -> Option<V> {
        lookup(self.pairs(), k)
    }

    /// An empty map.
    pub fn new() -> (r: Self)
        ensures
            r.pairs() == Seq::<(Seq<char>, V)>::empty(),
    {
        let r = StrMap { entries: Vec::new() };
        proof {
            assert(r.pairs() =~= Seq::<(Seq<char>, V)>::empty());
        }
        r
    }

    /// The number of entries.
    pub fn len(&self) -> (n: usize)
        ensures
            n == self.pairs().len(),
    {
        self.entries.len()
    }

    /// The entries, by increasing key.
    pub fn entries(&self) -> (r: &Vec<(String, V)>)
        ensures
            pairs_of(r@) == self.pairs(),
            keys_sorted(self.pairs()),
    {
        proof {
            use_type_invariant(self);
        }
        &self.entries
    }

    /// The index of the entry with the key `key`, or the index at which
    /// such an entry would be put.
    fn locate(&self, key: &Vec<char>) -> (r: (usize, bool))
        ensures
            r.0 == rank(self.pairs(), key@),
            r.0 <= self.pairs().len(),
            r.1 == (r.0 < self.pairs().len() && self.pairs()[r.0 as int].0 == key@),
            r.1 == has_key(self.pairs(), key@),
            keys_sorted(self.pairs()),
    {
        proof {
            use_type_invariant(self);
        }
        let mut i: usize = 0;
        while i < self.entries.len()
            invariant
                i <= self.entries.len(),
                forall|j: int| 0 <= j < i ==> lex_lt(#[trigger] self.pairs()[j].0, key@),
                keys_sorted(self.pairs()),
                self.pairs().len() == self.entries.len(),
                self.pairs() == pairs_of(self.entries@),
            decreases self.entries.len() - i,
        {
            let k = chars_of(self.entries[i].0.as_str());
            proof {
                assert(self.pairs()[i as int].0 == k@);
            }
            match lex_order(&k, key) {
                Place::Before => {},
                Place::Same => {
                    proof {
                        if lex_lt(k@, key@) {
                            lemma_lex_lt_asymmetric(k@, key@);
                        }
                        lemma_rank_is(self.pairs(), key@, i as int);
                        assert(self.pairs()[i as int].0 == key@);
                    }
                    return (i, true);
                },
                Place::After => {
                    proof {
                        lemma_lex_lt_asymmetric(key@, k@);
                        lemma_rank_is(self.pairs(), key@, i as int);
                        if has_key(self.pairs(), key@) {
                            let j = index_of_key(self.pairs(), key@);
                            if j < i {
                                lemma_lex_lt_asymmetric(self.pairs()[j].0, key@);
                            } else if j > i {
                                lemma_lex_lt_transitive(key@, k@, self.pairs()[j].0);
                                lemma_lex_lt_asymmetric(key@, self.pairs()[j].0);
                            }
                        }
                    }
                    return (i, false);
                },
            }
            i += 1;
        }
        proof {
            lemma_rank_is(self.pairs(), key@, i as int);
            if has_key(self.pairs(), key@) {
                let j = index_of_key(self.pairs(), key@);
                lemma_lex_lt_asymmetric(self.pairs()[j].0, key@);
            }
        }
        (i, false)
    }

    /// The value under `key`, if any.
    pub fn get(&self, key: &str) -> (r: Option<&V>)
        ensures
            match r {
                Some(v) => self.value_of(key@) == Some(*v),
                None => self.value_of(key@) is None,
            },
            keys_sorted(self.pairs()),
    {
        let k = chars_of(key);
        let (i, found) = self.locate(&k);
        if found {
            proof {
                lemma_lookup_at(self.pairs(), i as int);
            }
            Some(&self.entries[i].1)
        } else {
            None
        }
    }

    /// The index of the entry with the key `key`, if there is one.
    pub fn position(&self, key: &str) -> (r: Option<usize>)
        ensures
            match r {
                Some(i) => has_key(self.pairs(), key@) && i == index_of_key(self.pairs(), key@)
                    && i < self.pairs().len() && self.pairs()[i as int].0 == key@,
                None => !has_key(self.pairs(), key@),
            },
            keys_sorted(self.pairs()),
    {
        let k = chars_of(key);
        let (i, found) = self.locate(&k);
        if found {
            proof {
                lemma_lookup_at(self.pairs(), i as int);
            }
            Some(i)
        } else {
            None
        }
    }

    /// Whether some entry has the key `key`.
    pub fn contains_key(&self, key: &str) -> (r: bool)
        ensures
            r == has_key(self.pairs(), key@),
    {
        let k = chars_of(key);
        let (_, found) = self.locate(&k);
        found
    }

    /// Binds `key` to `value`, replacing the value it had.
    pub fn insert(&mut self, key: String, value: V)
        ensures
            final(self).pairs() == upserted(old(self).pairs(), key@, value),
            keys_sorted(final(self).pairs()),
    {
        let k = chars_of(key.as_str());
        let (i, found) = self.locate(&k);
        let mut taken: Vec<(String, V)> = Vec::new();
        proof {
            assert(pairs_of(taken@) =~= Seq::<(Seq<char>, V)>::empty());
        }
        std::mem::swap(&mut self.entries, &mut taken);
        if found {
            taken.set(i, (key, value));
        } else {
            taken.insert(i, (key, value));
        }
        proof {
            assert(pairs_of(taken@) =~= upserted(old(self).pairs(), key@, value));
            lemma_upserted_sorted(old(self).pairs(), key@, value);
        }
        self.entries = taken;
    }
}

impl<V: Clone> Clone for StrMap<V> {
    /// A map with the same keys, each value cloned.
    fn clone(&self) -> (r: Self)
        ensures
            r.pairs().len() == self.pairs().len(),
            forall|i: int|
                0 <= i < self.pairs().len() ==> (#[trigger] r.pairs()[i]).0 == self.pairs()[i].0
                    && cloned::<V>(self.pairs()[i].1, r.pairs()[i].1),
    {
        proof {
            use_type_invariant(self);
        }
        let mut out: Vec<(String, V)> = Vec::new();
        let mut i: usize = 0;
        while i < self.entries.len()
            invariant
                i <= self.entries.len(),
                out.len() == i,
                forall|j: int|
                    0 <= j < i ==> (#[trigger] out@[j]).0 == self.entries@[j].0 && cloned::<V>(
                        self.entries@[j].1,
                        out@[j].1,
                    ),
            decreases self.entries.len() - i,
        {
            let k = self.entries[i].0.clone();
            let v = self.entries[i].1.clone();
            out.push((k, v));
            i += 1;
        }
        proof {
            let a = pairs_of(out@);
            let b = self.pairs();
            assert(a.len() == b.len());
            assert forall|x: int, y: int| 0 <= x < y < a.len() implies lex_lt(
                #[trigger] a[x].0,
                #[trigger] a[y].0,
            ) by {
                assert(out@[x].0 == self.entries@[x].0);
                assert(out@[y].0 == self.entries@[y].0);
                assert(a[x].0 == b[x].0 && a[y].0 == b[y].0);
            }
            assert forall|j: int| 0 <= j < b.len() implies (#[trigger] a[j]).0 == b[j].0
                && cloned::<V>(b[j].1, a[j].1) by {
                assert(out@[j].0 == self.entries@[j].0);
            }
        }
        StrMap { entries: out }
    }
}

} // verus!
