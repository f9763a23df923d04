//! The in-memory index: documents held in memory, found through an
//! inverted index of trigrams and verified against the pattern.

use vstd::prelude::*;
use croaring::Bitmap;
use crate::bitmap::{
    bitmap_add, bitmap_and, bitmap_andnot, bitmap_members, bitmap_new, bitmap_or, bitmap_to_vec,
    bitmap_universe, strictly_increasing, universe,
};
use crate::doc::{
    ext_id_of, has_ext_id, indexed_fields, normalize_leaves, normalized_leaves, StoredDoc,
};
use crate::gram::{BooleanOp, strings_view, trigram_windows, trigrams};
use crate::json::{collect_strings, Json, leaves_view, string_leaves};
use crate::normalizer::is_mark_char;
use crate::query::{compile_pattern, ExecPlan, Hit, pattern_regex};
use crate::strmap::{
    has_key, index_of_key, keys_sorted, lemma_lookup_at, lemma_upserted_lookup, lookup, StrMap,
    upserted,
};
use crate::verify::{regex_compiles, regex_first_match, RegexVerify, VerifyEngine};

verus! {

/// The classes of characters that normalisation tells apart.
#[derive(Debug, Clone, Copy, PartialEq, Eq, Structural)]
pub enum Category {
    /// A combining mark of the range U+0300..U+036F.
    Mark,
    Other,
}

/// The class of a character.
pub fn get_general_category(c: char) -> (r: Category)
    ensures
        r == (if is_mark_char(c) {
            Category::Mark
        } else {
            Category::Other
        }),
{
    let v: u32 = c as u32;
    if 0x0300 <= v && v <= 0x036F {
        Category::Mark
    } else {
        Category::Other
    }
}

impl Category {
    /// Whether the class is that of the combining marks.
    pub fn is_mark(&self) -> (r: bool)
        ensures
            r == (*self == Category::Mark),
    {
        match self {
            Category::Mark => true,
            Category::Other => false,
        }
    }
}

/// A query names no trigram to look up.
#[derive(Debug, Clone, Copy, PartialEq, Eq, Structural)]
pub struct NoGrams;

/// Why a search of the in-memory index failed.
#[derive(Debug, Clone, Copy, PartialEq, Eq, Structural)]
pub enum IndexError {
    /// The plan names no trigram.
    NoGrams,
    /// The pattern of the plan does not compile.
    BadPattern,
}

/// The inverted index: for every trigram the documents that hold it, and
/// the external ids of the documents.
pub struct InvertedIndex {
    /// The doc id that the next new document gets.
    pub next_id: u32,
    /// The doc id of every external id.
    pub ext2int: StrMap<u32>,
    /// The external id of every doc id.
    pub int2ext: Vec<String>,
    /// For every trigram the place of its documents among `bitmaps`.
    pub gram_slots: StrMap<usize>,
    pub bitmaps: Vec<Bitmap>,
}

/// Whether the set holds a document.
pub open spec fn has_docs(s: Set<u32>) -> bool {
    exists|x: u32| s.contains(x)
}

impl InvertedIndex {
    /// Whether the index is in order: every doc id has its external id,
    /// every external id leads to a doc id that leads back to it, and
    /// every trigram has documents of its own.
    pub open spec fn wf(&self) -> bool {
        &&& self.next_id == self.int2ext@.len()
        &&& forall|i: int|
            0 <= i < self.gram_slots.pairs().len() ==> (#[trigger] self.gram_slots.pairs()[i]).1
                < self.bitmaps@.len()
        &&& forall|i: int, j: int|
            0 <= i < j < self.gram_slots.pairs().len() ==> (#[trigger] self.gram_slots.pairs()[i]).1
                != (#[trigger] self.gram_slots.pairs()[j]).1
        &&& forall|i: int|
            0 <= i < self.ext2int.pairs().len() ==> (#[trigger] self.ext2int.pairs()[i]).1
                < self.next_id && self.int2ext@[self.ext2int.pairs()[i].1 as int]@
                == self.ext2int.pairs()[i].0
    }

    /// Whether every key of the index has a document.
    pub open spec fn every_key_has_docs(&self) -> bool {
        forall|i: int|
            0 <= i < self.gram_slots.pairs().len() ==> has_docs(
                self.docs_with((#[trigger] self.gram_slots.pairs()[i]).0),
            )
    }

    /// The documents that hold the trigram.
    pub open spec fn docs_with(&self, gram: Seq<char>) -> Set<u32> {
        match lookup(self.gram_slots.pairs(), gram) {
            Some(slot) => bitmap_members(self.bitmaps@[slot as int]),
            None => Set::empty(),
        }
    }

    /// An empty index: it knows no external id and no trigram, and the
    /// first document that comes gets the doc id zero.
    pub fn new() -> (r: Self)
        ensures
            r.wf(),
            r.next_id == 0,
            r.ext2int.pairs().len() == 0,
            r.int2ext@.len() == 0,
            r.gram_slots.pairs().len() == 0,
            r.bitmaps@.len() == 0,
            r.every_key_has_docs(),
            forall|g: Seq<char>| r.docs_with(g) == Set::<u32>::empty(),
    {
        InvertedIndex {
            next_id: 0,
            ext2int: StrMap::new(),
            int2ext: Vec::new(),
            gram_slots: StrMap::new(),
            bitmaps: Vec::new(),
        }
    }

    /// The doc id of an external id: the one it has, or for a new
    /// external id the next one.
    pub fn map_ext_id(&mut self, ext: &str) -> (id: u32)
        requires
            old(self).wf(),
            old(self).next_id < u32::MAX,
        ensures
            final(self).wf(),
            final(self).gram_slots == old(self).gram_slots,
            final(self).bitmaps == old(self).bitmaps,
            final(self).int2ext@[id as int]@ == ext@,
            match lookup(old(self).ext2int.pairs(), ext@) {
                Some(known) => id == known && final(self).next_id == old(self).next_id && final(self).ext2int.pairs() == old(self).ext2int.pairs() && final(self).int2ext@ == old(self).int2ext@,
                None => id == old(self).next_id && final(self).next_id == old(self).next_id + 1
                    && final(self).ext2int.pairs() == upserted(old(self).ext2int.pairs(), ext@, id)
                    && final(self).int2ext@.len() == old(self).int2ext@.len() + 1 && final(self).int2ext@.last()@ == ext@ && final(self).int2ext@.drop_last() == old(self).int2ext@,
            },
            id < final(self).next_id,
    {
        match self.ext2int.get(ext) {
            Some(id) => {
                let id: u32 = *id;
                proof {
                    let i = index_of_key(self.ext2int.pairs(), ext@);
                    lemma_lookup_at(self.ext2int.pairs(), i);
                }
                return id;
            },
            None => {},
        }
        let id = self.next_id;
        let ghost before = self.ext2int.pairs();
        self.next_id = self.next_id + 1;
        self.ext2int.insert(ext.to_owned(), id);
        self.int2ext.push(ext.to_owned());
        proof {
            let after = self.ext2int.pairs();
            assert(self.int2ext@.drop_last() =~= old(self).int2ext@);
            assert forall|i: int| 0 <= i < after.len() implies (#[trigger] after[i]).1
                < self.next_id && self.int2ext@[after[i].1 as int]@ == after[i].0 by {
                lemma_lookup_at(after, i);
                lemma_upserted_lookup(before, ext@, id, after[i].0);
                if after[i].0 != ext@ {
                    let k = index_of_key(before, after[i].0);
                    lemma_lookup_at(before, k);
                    assert(self.int2ext@[before[k].1 as int] == old(self).int2ext@[before[k].1 as int]);
                }
            }
        }
        id
    }

    /// The external id of a doc id.
    pub fn reverse_id(&self, id: u32) -> (r: &str)
        requires
            self.wf(),
            id < self.next_id,
        ensures
            r@ == self.int2ext@[id as int]@,
    {
        self.int2ext[id as usize].as_str()
    }

    /// Puts the document under one key.
    pub fn add_key(&mut self, doc: u32, gram: &str)
        requires
            old(self).wf(),
        ensures
            final(self).wf(),
            final(self).next_id == old(self).next_id,
            final(self).ext2int == old(self).ext2int,
            final(self).int2ext == old(self).int2ext,
            forall|g: Seq<char>|
                final(self).docs_with(g) == (if g == gram@ {
                    old(self).docs_with(g).insert(doc)
                } else {
                    old(self).docs_with(g)
                }),
            old(self).every_key_has_docs() ==> final(self).every_key_has_docs(),
    {
        let ghost slots = self.gram_slots.pairs();
        let slot: usize = match self.gram_slots.get(gram) {
            Some(s) => {
                proof {
                    let i = index_of_key(slots, gram@);
                    lemma_lookup_at(slots, i);
                }
                *s
            },
            None => {
                let s = self.bitmaps.len();
                self.bitmaps.push(bitmap_new());
                self.gram_slots.insert(gram.to_owned(), s);
                proof {
                    let after = self.gram_slots.pairs();
                    assert forall|i: int| 0 <= i < after.len() implies (#[trigger] after[i]).1
                        < self.bitmaps@.len() && (after[i].0 != gram@ ==> after[i].1 < s && lookup(
                        slots,
                        after[i].0,
                    ) == Some(after[i].1)) && (after[i].0 == gram@ ==> after[i].1 == s) by {
                        lemma_lookup_at(after, i);
                        lemma_upserted_lookup(slots, gram@, s, after[i].0);
                        if after[i].0 != gram@ {
                            let k = index_of_key(slots, after[i].0);
                            lemma_lookup_at(slots, k);
                        }
                    }
                    assert forall|i: int, j: int| 0 <= i < j < after.len() implies (
                    #[trigger] after[i]).1 != (#[trigger] after[j]).1 by {
                        crate::strmap::lemma_lex_lt_asymmetric(after[i].0, after[j].0);
                        if after[i].0 != gram@ && after[j].0 != gram@ {
                            let a = index_of_key(slots, after[i].0);
                            let b = index_of_key(slots, after[j].0);
                            lemma_lookup_at(slots, a);
                            lemma_lookup_at(slots, b);
                            assert(slots[a].0 != slots[b].0);
                            if a < b {
                                assert(slots[a].1 != slots[b].1);
                            } else if b < a {
                                assert(slots[b].1 != slots[a].1);
                            }
                        }
                    }
                    assert forall|g: Seq<char>| self.docs_with(g) == old(self).docs_with(g) by {
                        lemma_upserted_lookup(slots, gram@, s, g);
                        if g != gram@ {
                            if has_key(slots, g) {
                                let k = index_of_key(slots, g);
                                lemma_lookup_at(slots, k);
                            }
                        }
                    }
                    lemma_upserted_lookup(slots, gram@, s, gram@);
                }
                s
            },
        };
        let ghost mid = *self;
        let ghost mslots = self.gram_slots.pairs();
        proof {
            assert forall|i: int| 0 <= i < mslots.len() implies (#[trigger] mslots[i]).0 == gram@
                || has_key(slots, mslots[i].0) by {
                if mslots != slots {
                    lemma_upserted_lookup(slots, gram@, self.bitmaps@.len() as usize, mslots[i].0);
                    lemma_lookup_at(mslots, i);
                }
            }
        }
        bitmap_add(&mut self.bitmaps[slot], doc);
        proof {
            assert(lookup(mslots, gram@) == Some(slot));
            assert forall|g: Seq<char>| self.docs_with(g) == (if g == gram@ {
                mid.docs_with(g).insert(doc)
            } else {
                mid.docs_with(g)
            }) by {
                if g != gram@ && has_key(mslots, g) {
                    let a = index_of_key(mslots, g);
                    let b = index_of_key(mslots, gram@);
                    lemma_lookup_at(mslots, a);
                    lemma_lookup_at(mslots, b);
                    if a < b {
                        assert(mslots[a].1 != mslots[b].1);
                    } else if b < a {
                        assert(mslots[b].1 != mslots[a].1);
                    }
                }
            }
            if old(self).every_key_has_docs() {
                assert forall|i: int| 0 <= i < mslots.len() implies has_docs(
                    self.docs_with((#[trigger] mslots[i]).0),
                ) by {
                    let k = mslots[i].0;
                    if k == gram@ {
                        assert(self.docs_with(k).contains(doc));
                    } else {
                        let j = index_of_key(slots, k);
                        assert(slots[j].0 == k);
                        assert(has_docs(old(self).docs_with(slots[j].0)));
                        assert(mid.docs_with(k) == old(self).docs_with(k));
                    }
                }
            }
        }
    }

    /// Makes the documents `ids` the documents of the key, whatever it
    /// had before.
    pub fn put_list(&mut self, key: &str, ids: &Vec<u32>)
        requires
            old(self).wf(),
        ensures
            final(self).wf(),
            final(self).next_id == old(self).next_id,
            final(self).ext2int == old(self).ext2int,
            final(self).int2ext == old(self).int2ext,
            forall|g: Seq<char>|
                final(self).docs_with(g) == (if g == key@ {
                    ids@.to_set()
                } else {
                    old(self).docs_with(g)
                }),
    {
        let ghost slots = self.gram_slots.pairs();
        let bm = crate::bitmap::bitmap_of(ids);
        match self.gram_slots.get(key) {
            Some(s) => {
                let slot: usize = *s;
                proof {
                    let i = index_of_key(slots, key@);
                    lemma_lookup_at(slots, i);
                }
                self.bitmaps.set(slot, bm);
                proof {
                    assert forall|g: Seq<char>| self.docs_with(g) == (if g == key@ {
                        ids@.to_set()
                    } else {
                        old(self).docs_with(g)
                    }) by {
                        if g != key@ && has_key(slots, g) {
                            let a = index_of_key(slots, g);
                            let b = index_of_key(slots, key@);
                            lemma_lookup_at(slots, a);
                            lemma_lookup_at(slots, b);
                            if a < b {
                                assert(slots[a].1 != slots[b].1);
                            } else if b < a {
                                assert(slots[b].1 != slots[a].1);
                            }
                        }
                    }
                }
            },
            None => {
                let s = self.bitmaps.len();
                self.bitmaps.push(bm);
                self.gram_slots.insert(key.to_owned(), s);
                proof {
                    let after = self.gram_slots.pairs();
                    assert forall|i: int| 0 <= i < after.len() implies (#[trigger] after[i]).1
                        < self.bitmaps@.len() && (after[i].0 != key@ ==> after[i].1 < s && lookup(
                        slots,
                        after[i].0,
                    ) == Some(after[i].1)) && (after[i].0 == key@ ==> after[i].1 == s) by {
                        lemma_lookup_at(after, i);
                        lemma_upserted_lookup(slots, key@, s, after[i].0);
                        if after[i].0 != key@ {
                            let k = index_of_key(slots, after[i].0);
                            lemma_lookup_at(slots, k);
                        }
                    }
                    assert forall|i: int, j: int| 0 <= i < j < after.len() implies (
                    #[trigger] after[i]).1 != (#[trigger] after[j]).1 by {
                        crate::strmap::lemma_lex_lt_asymmetric(after[i].0, after[j].0);
                        if after[i].0 != key@ && after[j].0 != key@ {
                            let a = index_of_key(slots, after[i].0);
                            let b = index_of_key(slots, after[j].0);
                            lemma_lookup_at(slots, a);
                            lemma_lookup_at(slots, b);
                            assert(slots[a].0 != slots[b].0);
                            if a < b {
                                assert(slots[a].1 != slots[b].1);
                            } else if b < a {
                                assert(slots[b].1 != slots[a].1);
                            }
                        }
                    }
                    assert forall|g: Seq<char>| self.docs_with(g) == (if g == key@ {
                        ids@.to_set()
                    } else {
                        old(self).docs_with(g)
                    }) by {
                        lemma_upserted_lookup(slots, key@, s, g);
                        if g != key@ {
                            if has_key(slots, g) {
                                let k = index_of_key(slots, g);
                                lemma_lookup_at(slots, k);
                            }
                        }
                    }
                }
            },
        }
    }

    /// The keys of the index with the documents of each, in key order
    /// and each list in doc id order.
    pub fn dump(&self) -> (r: Vec<(String, Vec<u32>)>)
        requires
            self.wf(),
        ensures
            r@.len() == self.gram_slots.pairs().len(),
            forall|i: int|
                0 <= i < r@.len() ==> (#[trigger] r@[i]).0@ == self.gram_slots.pairs()[i].0
                    && strictly_increasing(r@[i].1@) && (forall|x: u32|
                    r@[i].1@.contains(x) <==> self.docs_with(r@[i].0@).contains(x)),
            keys_sorted(self.gram_slots.pairs()),
    {
        let entries = self.gram_slots.entries();
        let ghost slots = self.gram_slots.pairs();
        let mut out: Vec<(String, Vec<u32>)> = Vec::new();
        let mut i: usize = 0;
        while i < entries.len()
            invariant
                i <= entries.len(),
                self.wf(),
                slots == self.gram_slots.pairs(),
                keys_sorted(slots),
                crate::strmap::pairs_of(entries@) == slots,
                out@.len() == i,
                forall|k: int|
                    0 <= k < i ==> (#[trigger] out@[k]).0@ == slots[k].0 && strictly_increasing(
                        out@[k].1@,
                    ) && (forall|x: u32|
                        out@[k].1@.contains(x) <==> self.docs_with(out@[k].0@).contains(x)),
            decreases entries.len() - i,
        {
            proof {
                assert(slots[i as int] == (entries@[i as int].0@, entries@[i as int].1));
                lemma_lookup_at(slots, i as int);
            }
            let ids = bitmap_to_vec(&self.bitmaps[entries[i].1]);
            out.push((entries[i].0.clone(), ids));
            i += 1;
        }
        out
    }

    /// Puts the document under every trigram of its text.
    pub fn add_text(&mut self, doc: u32, text_norm: &str)
        requires
            old(self).wf(),
        ensures
            final(self).wf(),
            final(self).next_id == old(self).next_id,
            final(self).ext2int == old(self).ext2int,
            final(self).int2ext == old(self).int2ext,
            forall|g: Seq<char>|
                final(self).docs_with(g) == (if trigram_windows(text_norm@).contains(g) {
                    old(self).docs_with(g).insert(doc)
                } else {
                    old(self).docs_with(g)
                }),
            old(self).every_key_has_docs() ==> final(self).every_key_has_docs(),
    {
        let grams = trigrams(text_norm);
        let ghost ws = trigram_windows(text_norm@);
        let mut i: usize = 0;
        proof {
            assert forall|g: Seq<char>| !ws.take(0).contains(g) by {}
        }
        while i < grams.len()
            invariant
                i <= grams.len(),
                self.wf(),
                ws == strings_view(grams@),
                self.next_id == old(self).next_id,
                self.ext2int == old(self).ext2int,
                self.int2ext == old(self).int2ext,
                old(self).every_key_has_docs() ==> self.every_key_has_docs(),
                forall|g: Seq<char>|
                    self.docs_with(g) == (if ws.take(i as int).contains(g) {
                        old(self).docs_with(g).insert(doc)
                    } else {
                        old(self).docs_with(g)
                    }),
            decreases grams.len() - i,
        {
            let ghost before = *self;
            self.add_key(doc, grams[i].as_str());
            proof {
                let cur = grams@[i as int]@;
                assert(ws[i as int] == cur);
                let t0 = ws.take(i as int);
                let t1 = ws.take(i + 1);
                assert(t1 =~= t0.push(cur));
                assert forall|g: Seq<char>| self.docs_with(g) == (if t1.contains(g) {
                    old(self).docs_with(g).insert(doc)
                } else {
                    old(self).docs_with(g)
                }) by {
                    if t0.contains(g) {
                        let k = choose|k: int| 0 <= k < t0.len() && t0[k] == g;
                        assert(t1[k] == g);
                    }
                    if g == cur {
                        assert(t1[i as int] == g);
                    }
                    if t1.contains(g) && g != cur {
                        let k = choose|k: int| 0 <= k < t1.len() && t1[k] == g;
                        assert(t0[k] == g);
                    }
                    assert(before.docs_with(g).insert(doc).insert(doc) =~= before.docs_with(
                        g,
                    ).insert(doc));
                }
            }
            i += 1;
        }
        proof {
            assert(ws.take(grams.len() as int) =~= ws);
        }
    }

    /// What the first `n` trigrams have in common.
    pub open spec fn common(&self, grams: Seq<Seq<char>>, n: int) -> Set<u32>
        decreases n,
    {
        if n <= 0 || n > grams.len() {
            Set::empty()
        } else if n == 1 {
            self.docs_with(grams[0])
        } else {
            self.common(grams, n - 1).intersect(self.docs_with(grams[n - 1]))
        }
    }

    /// What any of the first `n` trigrams has.
    pub open spec fn any(&self, grams: Seq<Seq<char>>, n: int) -> Set<u32>
        decreases n,
    {
        if n <= 0 || n > grams.len() {
            Set::empty()
        } else {
            self.any(grams, n - 1).union(self.docs_with(grams[n - 1]))
        }
    }

    /// The candidates of a plan: under AND the documents that hold every
    /// trigram, under OR those that hold any, under NOT those that hold
    /// none. Under AND a plan without trigrams is refused.
    pub open spec fn executed(&self, op: BooleanOp, grams: Seq<Seq<char>>) -> Result<Set<u32>, NoGrams> {
        match op {
            BooleanOp::And => if grams.len() == 0 {
                Err(NoGrams)
            } else {
                Ok(self.common(grams, grams.len() as int))
            },
            BooleanOp::Or => Ok(self.any(grams, grams.len() as int)),
            BooleanOp::Not => Ok(
                universe(self.next_id).difference(self.any(grams, grams.len() as int)),
            ),
        }
    }

    /// A bitmap of the documents that hold the trigram.
    pub fn bitmap_for(&self, gram: &str) -> (b: Bitmap)
        requires
            self.wf(),
        ensures
            bitmap_members(b) == self.docs_with(gram@),
    {
        let mut out = bitmap_new();
        match self.gram_slots.get(gram) {
            Some(slot) => {
                proof {
                    let i = index_of_key(self.gram_slots.pairs(), gram@);
                    lemma_lookup_at(self.gram_slots.pairs(), i);
                }
                bitmap_or(&mut out, &self.bitmaps[*slot]);
                proof {
                    assert(bitmap_members(out) =~= self.docs_with(gram@));
                }
            },
            None => {},
        }
        out
    }

    /// The documents that hold every one of the trigrams.
    pub fn intersect_all(&self, grams: &Vec<String>) -> (r: Result<Bitmap, NoGrams>)
        requires
            self.wf(),
        ensures
            match r {
                Ok(b) => grams@.len() > 0 && bitmap_members(b) == self.common(
                    strings_view(grams@),
                    grams@.len() as int,
                ),
                Err(_) => grams@.len() == 0,
            },
    {
        if grams.len() == 0 {
            return Err(NoGrams);
        }
        let ghost gv = strings_view(grams@);
        proof {
            assert(gv[0] == grams@[0]@);
        }
        let mut acc = self.bitmap_for(grams[0].as_str());
        let mut i: usize = 1;
        while i < grams.len()
            invariant
                1 <= i <= grams.len(),
                self.wf(),
                gv == strings_view(grams@),
                bitmap_members(acc) == self.common(gv, i as int),
            decreases grams.len() - i,
        {
            proof {
                assert(gv[i as int] == grams@[i as int]@);
            }
            let b = self.bitmap_for(grams[i].as_str());
            bitmap_and(&mut acc, &b);
            i += 1;
        }
        Ok(acc)
    }

    /// The documents that hold any of the trigrams.
    pub fn union_all(&self, grams: &Vec<String>) -> (b: Bitmap)
        requires
            self.wf(),
        ensures
            bitmap_members(b) == self.any(strings_view(grams@), grams@.len() as int),
    {
        let ghost gv = strings_view(grams@);
        let mut acc = bitmap_new();
        let mut i: usize = 0;
        while i < grams.len()
            invariant
                i <= grams.len(),
                self.wf(),
                gv == strings_view(grams@),
                bitmap_members(acc) == self.any(gv, i as int),
            decreases grams.len() - i,
        {
            proof {
                assert(gv[i as int] == grams@[i as int]@);
            }
            let b = self.bitmap_for(grams[i].as_str());
            bitmap_or(&mut acc, &b);
            i += 1;
        }
        acc
    }

    /// The documents that hold none of the trigrams.
    pub fn not_all(&self, grams: &Vec<String>) -> (b: Bitmap)
        requires
            self.wf(),
        ensures
            bitmap_members(b) == universe(self.next_id).difference(
                self.any(strings_view(grams@), grams@.len() as int),
            ),
    {
        let mut acc = bitmap_universe(self.next_id);
        let un = self.union_all(grams);
        bitmap_andnot(&mut acc, &un);
        acc
    }

    /// The candidates of a plan.
    pub fn execute(&self, plan: &ExecPlan) -> (r: Result<Bitmap, NoGrams>)
        requires
            self.wf(),
        ensures
            match r {
                Ok(b) => self.executed(plan.op, strings_view(plan.grams@)) == Ok::<_, NoGrams>(
                    bitmap_members(b),
                ),
                Err(e) => self.executed(plan.op, strings_view(plan.grams@)) == Err::<Set<u32>, _>(
                    e,
                ),
            },
    {
        match plan.op {
            BooleanOp::And => self.intersect_all(&plan.grams),
            BooleanOp::Or => Ok(self.union_all(&plan.grams)),
            BooleanOp::Not => Ok(self.not_all(&plan.grams)),
        }
    }
}

/// Whether `s` has the shape in which a `Uuid` is printed: thirty-six
/// characters, hyphens at the places 8, 13, 18 and 23, and digits or the
/// letters `a` to `f` elsewhere.
pub open spec fn is_uuid_text(s: Seq<char>) -> bool {
    &&& s.len() == 36
    &&& forall|i: int|
        0 <= i < 36 ==> (if i == 8 || i == 13 || i == 18 || i == 23 {
            #[trigger] s[i] == '-'
        } else {
            ('0' <= s[i] <= '9') || ('a' <= s[i] <= 'f')
        })
}

/// `Uuid::new_v4` gives a random identifier, here printed by its
/// `Display`: in lower case with hyphens. Which identifier comes is not
/// said.
#[verifier::external_body]
fn fresh_uuid() -> (r: String)
    ensures
        is_uuid_text(r@),
{
    uuid::Uuid::new_v4().to_string()
}

/// Whether the trigram stands in the text of one of the first `n` leaves.
pub open spec fn stands_in(leaves: Seq<(Seq<char>, Seq<char>)>, gram: Seq<char>, n: int) -> bool {
    exists|l: int|
        0 <= l < n && l < leaves.len() && trigram_windows((#[trigger] leaves[l]).1).contains(gram)
}

/// The in-memory index: the inverted index and the stored fields of
/// every document.
pub struct InMemoryIndex {
    pub inv: InvertedIndex,
    /// The fields of every document, by doc id.
    pub docs: Vec<StoredDoc>,
}

/// Whether a document matches a pattern: its named field does, or
/// without a name any of its fields.
pub open spec fn doc_matches(
    pattern: Seq<char>,
    texts: Seq<(Seq<char>, Seq<char>)>,
    field: Option<Seq<char>>,
) -> bool {
    match field {
        Some(f) => match lookup(texts, f) {
            Some(t) => regex_first_match(pattern, t) is Some,
            None => false,
        },
        None => exists|i: int|
            0 <= i < texts.len() && regex_first_match(pattern, (#[trigger] texts[i]).1) is Some,
    }
}

/// The text that a hit shows: the body, else the title, else the first
/// field, else nothing.
pub open spec fn shown_text(texts: Seq<(Seq<char>, Seq<char>)>) -> Seq<char> {
    match lookup(texts, "text.body"@) {
        Some(t) => t,
        None => match lookup(texts, "text.title"@) {
            Some(t) => t,
            None => if texts.len() > 0 {
                texts[0].1
            } else {
                Seq::empty()
            },
        },
    }
}

/// A hit as texts.
pub struct HitText {
    pub doc_id: Seq<char>,
    pub preview: Seq<char>,
}

/// The texts of hits.
pub open spec fn hit_texts(hits: Seq<Hit>) -> Seq<HitText> {
    hits.map_values(|h: Hit| HitText { doc_id: h.doc_id@, preview: h.preview@ })
}

/// The hits among the first `n` candidates: candidates before the
/// offset are passed over, every further one that matches is a hit with
/// its external id and the text it shows, and the walk ends where there
/// are `limit` hits.
pub open spec fn scanned(
    pattern: Seq<char>,
    docs: Seq<StoredDoc>,
    exts: Seq<String>,
    field: Option<Seq<char>>,
    cands: Seq<u32>,
    n: int,
    limit: u32,
    offset: u32,
) -> Seq<HitText>
    decreases n,
{
    if n <= 0 || n > cands.len() {
        Seq::empty()
    } else {
        let prev = scanned(pattern, docs, exts, field, cands, n - 1, limit, offset);
        let id = cands[n - 1];
        if n - 1 < offset || prev.len() >= limit || id >= docs.len() || id >= exts.len() {
            prev
        } else if doc_matches(pattern, docs[id as int].texts(), field) {
            prev.push(
                HitText { doc_id: exts[id as int]@, preview: shown_text(docs[id as int].texts()) },
            )
        } else {
            prev
        }
    }
}

/// The field that a plan names, as text.
pub open spec fn plan_field(plan: ExecPlan) -> Option<Seq<char>> {
    match plan.field {
        Some(f) => Some(f@),
        None => None,
    }
}

/// Whether a document matches.
fn doc_accepts(eng: &RegexVerify, doc: &StoredDoc, field: &Option<String>) -> (r: bool)
    requires
        keys_sorted(doc.texts()),
    ensures
        r == doc_matches(
            eng.source(),
            doc.texts(),
            match *field {
                Some(f) => Some(f@),
                None => None,
            },
        ),
{
    proof {
        assert forall|t: Seq<char>| eng.first_match(t) == regex_first_match(eng.source(), t) by {
            crate::verify::lemma_regex_verify_match(eng, t);
        }
    }
    match field {
        Some(f) => match doc.field(f.as_str()) {
            Some(t) => eng.is_match(t.as_str()),
            None => false,
        },
        None => {
            let entries = doc.fields.entries();
            let ghost texts = doc.texts();
            let mut k: usize = 0;
            while k < entries.len()
                invariant
                    k <= entries.len(),
                    *field is None,
                    texts == doc.texts(),
                    texts.len() == entries.len(),
                    forall|t: Seq<char>|
                        eng.first_match(t) == regex_first_match(eng.source(), t),
                    forall|i: int|
                        0 <= i < entries.len() ==> texts[i] == (
                            (#[trigger] entries@[i]).0@,
                            entries@[i].1@,
                        ),
                    forall|i: int|
                        0 <= i < k ==> regex_first_match(eng.source(), (#[trigger] texts[i]).1)
                            is None,
                decreases entries.len() - k,
            {
                proof {
                    assert(texts[k as int] == (entries@[k as int].0@, entries@[k as int].1@));
                }
                if eng.is_match(entries[k].1.as_str()) {
                    proof {
                        assert(regex_first_match(eng.source(), texts[k as int].1) is Some);
                    }
                    return true;
                }
                k += 1;
            }
            false
        },
    }
}

/// The text that a hit of the document shows.
fn shown(doc: &StoredDoc) -> (r: String)
    requires
        keys_sorted(doc.texts()),
    ensures
        r@ == shown_text(doc.texts()),
{
    match doc.field("text.body") {
        Some(t) => t.clone(),
        None => match doc.field("text.title") {
            Some(t) => t.clone(),
            None => {
                let entries = doc.fields.entries();
                if entries.len() > 0 {
                    proof {
                        assert(doc.texts()[0].1 == entries@[0].1@);
                    }
                    entries[0].1.clone()
                } else {
                    String::new()
                }
            },
        },
    }
}

impl InMemoryIndex {
    /// Whether the index is in order.
    pub open spec fn wf(&self) -> bool {
        &&& self.inv.wf()
        &&& self.docs@.len() == self.inv.next_id
        &&& forall|i: int| 0 <= i < self.docs@.len() ==> keys_sorted((#[trigger] self.docs@[i]).texts())
    }

    /// An empty index.
    pub fn new() -> (r: Self)
        ensures
            r.wf(),
            r.docs@.len() == 0,
            r.inv.next_id == 0,
            r.inv.ext2int.pairs().len() == 0,
            r.inv.gram_slots.pairs().len() == 0,
            forall|g: Seq<char>| r.inv.docs_with(g) == Set::<u32>::empty(),
    {
        InMemoryIndex { inv: InvertedIndex::new(), docs: Vec::new() }
    }

    /// Adds a document: under its string member `_id`, or under a fresh
    /// random id where it has none. Every string leaf is indexed in its
    /// normal form and stored under its path. A document whose id the
    /// index knows replaces the stored fields of that document. Gives
    /// the doc id.
    pub fn add_json_doc(&mut self, v: &Json) -> (id: u32)
        requires
            old(self).wf(),
            old(self).inv.next_id < u32::MAX,
        ensures
            final(self).wf(),
            id < final(self).docs@.len(),
            final(self).docs@[id as int].texts() == indexed_fields(string_leaves(*v, Seq::empty())),
            has_ext_id(*v) ==> final(self).docs@[id as int].ext_id@ == ext_id_of(*v),
            !has_ext_id(*v) ==> is_uuid_text(final(self).docs@[id as int].ext_id@),
            match lookup(old(self).inv.ext2int.pairs(), final(self).docs@[id as int].ext_id@) {
                Some(known) => id == known && final(self).docs@.len() == old(self).docs@.len(),
                None => id == old(self).docs@.len() && final(self).docs@.len() == old(self).docs@.len() + 1,
            },
            forall|i: int|
                0 <= i < old(self).docs@.len() && i != id ==> final(self).docs@[i] == old(self).docs@[i],
            final(self).inv.int2ext@[id as int]@ == final(self).docs@[id as int].ext_id@,
            forall|i: int|
                0 <= i < old(self).inv.int2ext@.len() ==> final(self).inv.int2ext@[i] == old(
                    self,
                ).inv.int2ext@[i],
            forall|g: Seq<char>|
                final(self).inv.docs_with(g) == (if stands_in(
                    normalized_leaves(string_leaves(*v, Seq::empty())),
                    g,
                    string_leaves(*v, Seq::empty()).len() as int,
                ) {
                    old(self).inv.docs_with(g).insert(id)
                } else {
                    old(self).inv.docs_with(g)
                }),
    {
        let ext: String = match v.get("_id") {
            Some(x) => match x.as_str() {
                Some(s) => s.to_owned(),
                None => fresh_uuid(),
            },
            None => fresh_uuid(),
        };
        let id = self.inv.map_ext_id(ext.as_str());
        let leaves = collect_strings(v);
        let entries = normalize_leaves(&leaves);
        let doc = StoredDoc::from_pairs(id, ext, &entries);
        let ghost nl = leaves_view(entries@);
        let ghost start = self.inv;
        let mut i: usize = 0;
        proof {
            assert forall|g: Seq<char>| !stands_in(nl, g, 0) by {}
        }
        while i < entries.len()
            invariant
                i <= entries.len(),
                self.inv.wf(),
                id < self.inv.next_id,
                nl == leaves_view(entries@),
                self.inv.next_id == start.next_id,
                self.inv.int2ext == start.int2ext,
                forall|g: Seq<char>|
                    self.inv.docs_with(g) == (if stands_in(nl, g, i as int) {
                        start.docs_with(g).insert(id)
                    } else {
                        start.docs_with(g)
                    }),
                self.docs@ == old(self).docs@,
                self.inv.next_id == old(self).inv.next_id || self.inv.next_id == old(self).inv.next_id + 1,
                self.inv.next_id == old(self).inv.next_id + 1 ==> id == old(self).inv.next_id,
                self.inv.next_id == old(self).inv.next_id ==> id < old(self).inv.next_id,
            decreases entries.len() - i,
        {
            let ghost before = self.inv;
            self.inv.add_text(id, entries[i].1.as_str());
            proof {
                let t = entries@[i as int].1@;
                assert(nl[i as int].1 == t);
                assert forall|g: Seq<char>| self.inv.docs_with(g) == (if stands_in(nl, g, i + 1) {
                    start.docs_with(g).insert(id)
                } else {
                    start.docs_with(g)
                }) by {
                    if stands_in(nl, g, i as int) {
                        let l = choose|l: int|
                            0 <= l < i && l < nl.len() && trigram_windows(
                                (#[trigger] nl[l]).1,
                            ).contains(g);
                        assert(trigram_windows(nl[l].1).contains(g));
                        assert(stands_in(nl, g, i + 1));
                    }
                    if trigram_windows(t).contains(g) {
                        assert(trigram_windows(nl[i as int].1).contains(g));
                        assert(stands_in(nl, g, i + 1));
                    }
                    if stands_in(nl, g, i + 1) {
                        let l = choose|l: int|
                            0 <= l < i + 1 && l < nl.len() && trigram_windows(
                                (#[trigger] nl[l]).1,
                            ).contains(g);
                        if l < i {
                            assert(trigram_windows(nl[l].1).contains(g));
                            assert(stands_in(nl, g, i as int));
                        }
                    }
                    assert(start.docs_with(g).insert(id).insert(id) =~= start.docs_with(g).insert(
                        id,
                    ));
                }
            }
            i += 1;
        }
        if (id as usize) < self.docs.len() {
            self.docs.set(id as usize, doc);
        } else {
            self.docs.push(doc);
        }
        id
    }

    /// Searches the index: the candidates of the plan are walked in doc
    /// id order, the first `offset` of them are passed over, and each
    /// further one that the pattern of the plan matches is a hit, until
    /// there are `limit` hits. The pattern is compiled when the first
    /// candidate needs it: with a limit of zero, or with no candidate
    /// past the offset, it is not looked at.
    pub fn search(&self, plan: &ExecPlan, limit: u32, offset: u32) -> (r: Result<
        Vec<Hit>,
        IndexError,
    >)
        requires
            self.wf(),
        ensures
            match self.inv.executed(plan.op, strings_view(plan.grams@)) {
                Err(_) => r == Err::<Vec<Hit>, _>(IndexError::NoGrams),
                Ok(set) => exists|cands: Seq<u32>|
                    strictly_increasing(cands) && (forall|x: u32|
                        cands.contains(x) <==> set.contains(x)) && (if limit == 0 || cands.len()
                        <= offset {
                        r matches Ok(hits) && hits@.len() == 0
                    } else if !regex_compiles(pattern_regex(plan.matcher@)) {
                        r == Err::<Vec<Hit>, _>(IndexError::BadPattern)
                    } else {
                        r matches Ok(hits) && hit_texts(hits@) == scanned(
                            pattern_regex(plan.matcher@),
                            self.docs@,
                            self.inv.int2ext@,
                            match plan.field {
                                Some(f) => Some(f@),
                                None => None,
                            },
                            cands,
                            cands.len() as int,
                            limit,
                            offset,
                        )
                    }),
            },
    {
        let cand = match self.inv.execute(plan) {
            Ok(b) => b,
            Err(_) => {
                return Err(IndexError::NoGrams);
            },
        };
        let ids = bitmap_to_vec(&cand);
        let mut out: Vec<Hit> = Vec::new();
        if limit == 0 || ids.len() as u64 <= offset as u64 {
            return Ok(out);
        }
        let eng = match compile_pattern(plan.matcher.as_str()) {
            Ok(e) => e,
            Err(_) => {
                return Err(IndexError::BadPattern);
            },
        };
        let ghost pattern = pattern_regex(plan.matcher@);
        let ghost field: Option<Seq<char>> = plan_field(*plan);
        let mut i: usize = 0;
        proof {
            assert(hit_texts(out@) =~= Seq::<HitText>::empty());
        }
        while i < ids.len() && out.len() < limit as usize
            invariant
                i <= ids.len(),
                self.wf(),
                eng.source() == pattern,
                field == plan_field(*plan),
                out@.len() <= limit,
                hit_texts(out@) == scanned(
                    pattern,
                    self.docs@,
                    self.inv.int2ext@,
                    field,
                    ids@,
                    i as int,
                    limit,
                    offset,
                ),
            decreases ids.len() - i,
        {
            let id = ids[i];
            if (i as u64) >= offset as u64 && (id as usize) < self.docs.len() {
                let doc = &self.docs[id as usize];
                if doc_accepts(&eng, doc, &plan.field) {
                    let preview = shown(doc);
                    let ghost before = out@;
                    let h = Hit { doc_id: self.inv.reverse_id(id).to_owned(), preview };
                    out.push(h);
                    proof {
                        assert(hit_texts(out@) =~= hit_texts(before).push(
                            HitText { doc_id: h.doc_id@, preview: h.preview@ },
                        ));
                    }
                }
            }
            i += 1;
        }
        proof {
            lemma_scan_stays(
                pattern,
                self.docs@,
                self.inv.int2ext@,
                field,
                ids@,
                i as int,
                ids@.len() as int,
                limit,
                offset,
            );
        }
        Ok(out)
    }
}

/// Once a scan has its limit of hits, further candidates add none.
pub proof fn lemma_scan_stays(
    pattern: Seq<char>,
    docs: Seq<StoredDoc>,
    exts: Seq<String>,
    field: Option<Seq<char>>,
    cands: Seq<u32>,
    k: int,
    n: int,
    limit: u32,
    offset: u32,
)
    requires
        0 <= k <= n <= cands.len(),
        scanned(pattern, docs, exts, field, cands, k, limit, offset).len() <= limit,
        k < n ==> scanned(pattern, docs, exts, field, cands, k, limit, offset).len() >= limit,
    ensures
        scanned(pattern, docs, exts, field, cands, n, limit, offset) == scanned(
            pattern,
            docs,
            exts,
            field,
            cands,
            k,
            limit,
            offset,
        ),
    decreases n - k,
{
    if k < n {
        lemma_scan_stays(pattern, docs, exts, field, cands, k, n - 1, limit, offset);
    }
}

} // verus!
