//! The hot buffer: the documents ingested last, searchable before any
//! segment holds them.

use vstd::prelude::*;
use std::collections::VecDeque;
use crate::doc::{ext_id_of, indexed_fields, StoredDoc};
use crate::json::{Json, string_leaves};
use crate::strmap::{has_key, StrMap, upserted};

verus! {

/// What applying a batch to the hot buffer did.
#[derive(Debug, Clone, Copy, PartialEq, Eq, Structural)]
pub struct ApplyResult {
    /// The number of documents that were added.
    pub added: usize,
    /// Whether the batch was a replay of one applied before.
    pub idempotent: bool,
    pub backlog_ms: Option<u64>,
}

/// The buffer is full: the batch was not taken.
#[derive(Debug, Clone, Copy, PartialEq, Eq, Structural)]
pub struct Backpressure {
    /// How long the client should wait before it tries again.
    pub retry_after_ms: u64,
}

/// The wait that a refused client is told.
pub const RETRY_AFTER_MS: u64 = 1500;

/// The capacity of a buffer that is given none.
pub const DEFAULT_HOT_CAP: usize = 10_000;

/// The hot buffer.
#[derive(Debug)]
pub struct HotMem {
    /// The documents, the oldest first.
    pub inner: VecDeque<StoredDoc>,
    /// The number of documents that are kept.
    pub cap: usize,
    /// The number of documents from which on batches are refused.
    pub hard_cap: usize,
    /// The idempotency keys seen so far.
    pub idempotency_seen: StrMap<()>,
}

/// A stored document as texts.
pub struct StoredModel {
    pub doc_id: u32,
    pub ext_id: Seq<char>,
    pub texts: Seq<(Seq<char>, Seq<char>)>,
}

/// The texts of a stored document.
pub open spec fn stored_model(d: StoredDoc) -> StoredModel {
    StoredModel { doc_id: d.doc_id, ext_id: d.ext_id@, texts: d.texts() }
}

/// The texts of stored documents.
pub open spec fn stored_models(docs: Seq<StoredDoc>) -> Seq<StoredModel> {
    docs.map_values(|d: StoredDoc| stored_model(d))
}

/// The doc id that a document gets in a buffer of `len` documents: the
/// length, as far as 32 bits hold it.
pub open spec fn hot_doc_id(len: nat) -> u32 {
    (len % 0x1_0000_0000) as u32
}

/// The buffer after one more document: the document comes last, with the
/// buffer's length as its doc id, and the oldest documents leave until
/// no more than `cap` are left.
pub open spec fn pushed(buf: Seq<StoredModel>, j: Json, cap: usize) -> Seq<StoredModel> {
    let grown = buf.push(
        StoredModel {
            doc_id: hot_doc_id(buf.len()),
            ext_id: ext_id_of(j),
            texts: indexed_fields(string_leaves(j, Seq::empty())),
        },
    );
    if grown.len() > cap {
        grown.skip(grown.len() - cap)
    } else {
        grown
    }
}

/// The buffer after the first `n` documents of a batch.
pub open spec fn applied(buf: Seq<StoredModel>, docs: Seq<Json>, cap: usize, n: int) -> Seq<
    StoredModel,
>
    decreases n,
{
    if n <= 0 || n > docs.len() {
        buf
    } else {
        pushed(applied(buf, docs, cap, n - 1), docs[n - 1], cap)
    }
}

/// A key that was applied is seen from then on: whatever batch comes
/// under it next is a replay.
pub proof fn lemma_applied_key_is_seen(seen: Seq<(Seq<char>, ())>, key: Seq<char>)
    requires
        crate::strmap::keys_sorted(seen),
    ensures
        has_key(upserted(seen, key, ()), key),
        forall|other: Seq<char>| has_key(seen, other) ==> has_key(upserted(seen, key, ()), other),
{
    crate::strmap::lemma_upserted_lookup(seen, key, (), key);
    assert forall|other: Seq<char>| has_key(seen, other) implies has_key(
        upserted(seen, key, ()),
        other,
    ) by {
        crate::strmap::lemma_upserted_lookup(seen, key, (), other);
    }
}

impl Default for HotMem {
    /// An empty buffer of the default capacity.
    fn default() -> (r: Self)
        ensures
            r.inner@.len() == 0,
            r.cap == DEFAULT_HOT_CAP,
            r.hard_cap == DEFAULT_HOT_CAP,
            r.idempotency_seen.pairs().len() == 0,
    {
        HotMem {
            inner: VecDeque::new(),
            cap: DEFAULT_HOT_CAP,
            hard_cap: DEFAULT_HOT_CAP,
            idempotency_seen: StrMap::new(),
        }
    }
}

impl HotMem {
    /// The documents of the buffer as texts, the oldest first.
    pub open spec fn docs(&self) -> Seq<StoredModel> {
        stored_models(self.inner@)
    }

    /// Whether the idempotency key was seen.
    pub open spec fn seen(&self, key: Seq<char>) -> bool {
        has_key(self.idempotency_seen.pairs(), key)
    }

    /// An empty buffer of the default capacity.
    pub fn new() -> (r: Self)
        ensures
            r.inner@.len() == 0,
            r.cap == DEFAULT_HOT_CAP,
            r.hard_cap == DEFAULT_HOT_CAP,
            r.idempotency_seen.pairs().len() == 0,
    {
        HotMem {
            inner: VecDeque::new(),
            cap: DEFAULT_HOT_CAP,
            hard_cap: DEFAULT_HOT_CAP,
            idempotency_seen: StrMap::new(),
        }
    }

    /// The buffer with the capacity `cap`, which is both the number of
    /// documents kept and the number from which on batches are refused.
    /// A capacity of zero changes nothing.
    pub fn with_cap(self, cap: usize) -> (r: Self)
        ensures
            r.inner == self.inner,
            r.idempotency_seen == self.idempotency_seen,
            cap > 0 ==> r.cap == cap && r.hard_cap == cap,
            cap == 0 ==> r.cap == self.cap && r.hard_cap == self.hard_cap,
    {
        let mut out = self;
        if cap > 0 {
            out.cap = cap;
            out.hard_cap = cap;
        }
        out
    }

    /// The number of documents in the buffer.
    pub fn len(&self) -> (n: usize)
        ensures
            n == self.inner@.len(),
    {
        self.inner.len()
    }

    /// Empties the buffer and forgets the idempotency keys.
    pub fn clear(&mut self)
        ensures
            final(self).inner@.len() == 0,
            final(self).idempotency_seen.pairs().len() == 0,
            final(self).cap == old(self).cap,
            final(self).hard_cap == old(self).hard_cap,
    {
        self.inner.clear();
        self.idempotency_seen = StrMap::new();
    }

    /// A copy of the documents of the buffer, the oldest first.
    pub fn snapshot(&self) -> (r: Vec<StoredDoc>)
        ensures
            stored_models(r@) == self.docs(),
    {
        let mut out: Vec<StoredDoc> = Vec::new();
        let mut i: usize = 0;
        while i < self.inner.len()
            invariant
                i <= self.inner.len(),
                stored_models(out@) == self.docs().take(i as int),
            decreases self.inner.len() - i,
        {
            let ghost before = out@;
            let d = self.inner[i].duplicate();
            out.push(d);
            proof {
                assert(self.docs()[i as int] == stored_model(self.inner@[i as int]));
                assert(stored_models(out@) =~= stored_models(before).push(stored_model(d)));
                assert(self.docs().take(i + 1) =~= self.docs().take(i as int).push(
                    self.docs()[i as int],
                ));
            }
            i += 1;
        }
        proof {
            assert(self.docs().take(self.inner.len() as int) =~= self.docs());
        }
        out
    }

    /// Puts one document last and lets the oldest leave until no more
    /// than the capacity are left.
    fn push_doc(&mut self, json: &Json)
        ensures
            final(self).docs() == pushed(old(self).docs(), *json, old(self).cap),
            final(self).cap == old(self).cap,
            final(self).hard_cap == old(self).hard_cap,
            final(self).idempotency_seen == old(self).idempotency_seen,
    {
        let len: usize = self.inner.len();
        let doc_id: u32 = ((len as u64) % 0x1_0000_0000) as u32;
        let doc = StoredDoc::from_json(doc_id, json);
        self.inner.push_back(doc);
        let ghost grown = self.docs();
        proof {
            assert(grown =~= old(self).docs().push(stored_model(doc)));
            assert(grown.skip(0) =~= grown);
        }
        while self.inner.len() > self.cap
            invariant
                self.cap == old(self).cap,
                self.hard_cap == old(self).hard_cap,
                self.idempotency_seen == old(self).idempotency_seen,
                self.inner@.len() <= grown.len(),
                self.inner@.len() == grown.len() || self.inner@.len() >= self.cap,
                self.docs() == grown.skip(grown.len() - self.inner@.len()),
            decreases self.inner@.len(),
        {
            let ghost before = self.docs();
            let _ = self.inner.pop_front();
            proof {
                assert(self.docs() =~= before.skip(1));
                assert(self.docs() =~= grown.skip(grown.len() - self.inner@.len()));
            }
        }
        proof {
            assert(grown.skip(0) =~= grown);
        }
    }

    /// Applies a batch of documents.
    ///
    /// A batch whose idempotency key was seen before changes nothing and
    /// is answered as a replay. Else the key, if there is one, is
    /// remembered; then, where the buffer holds as many documents as its
    /// hard capacity or more, the batch is refused. Else every document
    /// of the batch is stored in its normal form and put last, the
    /// oldest documents leaving where the capacity is passed.
    pub fn apply(&mut self, docs: Vec<Json>, idempotency_key: Option<String>) -> (r: Result<
        ApplyResult,
        Backpressure,
    >)
        ensures
            final(self).cap == old(self).cap,
            final(self).hard_cap == old(self).hard_cap,
            match idempotency_key {
                Some(k) => final(self).idempotency_seen.pairs() == upserted(
                    old(self).idempotency_seen.pairs(),
                    k@,
                    (),
                ),
                None => final(self).idempotency_seen.pairs() == old(self).idempotency_seen.pairs(),
            },
            match r {
                Ok(res) => res.backlog_ms is None && (if idempotency_key matches Some(k) && old(self).seen(k@) {
                    res.idempotent && res.added == 0 && final(self).docs() == old(self).docs()
                } else {
                    !res.idempotent && res.added == docs@.len() && old(self).inner@.len() < old(self).hard_cap && final(self).docs() == applied(
                        old(self).docs(),
                        docs@,
                        old(self).cap,
                        docs@.len() as int,
                    )
                }),
                Err(bp) => bp.retry_after_ms == RETRY_AFTER_MS && !(idempotency_key matches Some(k)
                    && old(self).seen(k@)) && old(self).inner@.len() >= old(self).hard_cap && final(self).docs() == old(self).docs(),
            },
    {
        match idempotency_key {
            Some(k) => {
                let was_seen = self.idempotency_seen.contains_key(k.as_str());
                self.idempotency_seen.insert(k, ());
                if was_seen {
                    return Ok(ApplyResult { added: 0, idempotent: true, backlog_ms: None });
                }
            },
            None => {},
        }
        if self.inner.len() >= self.hard_cap {
            return Err(Backpressure { retry_after_ms: RETRY_AFTER_MS });
        }
        let mut i: usize = 0;
        while i < docs.len()
            invariant
                i <= docs.len(),
                self.cap == old(self).cap,
                self.hard_cap == old(self).hard_cap,
                match idempotency_key {
                    Some(k) => self.idempotency_seen.pairs() == upserted(
                        old(self).idempotency_seen.pairs(),
                        k@,
                        (),
                    ),
                    None => self.idempotency_seen.pairs() == old(self).idempotency_seen.pairs(),
                },
                self.docs() == applied(old(self).docs(), docs@, old(self).cap, i as int),
            decreases docs.len() - i,
        {
            self.push_doc(&docs[i]);
            i += 1;
        }
        Ok(ApplyResult { added: docs.len(), idempotent: false, backlog_ms: None })
    }

    /// The number of documents in the buffer and its hard capacity.
    pub fn metrics(&self) -> (r: (usize, usize))
        ensures
            r.0 == self.inner@.len(),
            r.1 == self.hard_cap,
    {
        (self.inner.len(), self.hard_cap)
    }
}

} // verus!
