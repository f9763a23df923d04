//! The memtable: documents as they came, kept until they are flushed.

use vstd::prelude::*;
use crate::json::{Json, json_rendered};

verus! {

/// The documents that wait to be flushed, in the order they came.
#[derive(Debug)]
pub struct Memtable {
    pub inner: Vec<Json>,
}

/// The first `n` documents as compact JSON texts.
pub open spec fn rendered(docs: Seq<Json>, n: int) -> Seq<Seq<char>>
    decreases n,
{
    if n <= 0 || n > docs.len() {
        Seq::empty()
    } else {
        rendered(docs, n - 1).push(json_rendered(docs[n - 1]))
    }
}

impl Memtable {
    /// An empty memtable.
    pub fn new() -> (r: Self)
        ensures
            r.inner@.len() == 0,
    {
        Memtable { inner: Vec::new() }
    }

    /// The number of documents that wait.
    pub fn len(&self) -> (n: usize)
        ensures
            n == self.inner@.len(),
    {
        self.inner.len()
    }

    /// Forgets the documents.
    pub fn clear(&mut self)
        ensures
            final(self).inner@.len() == 0,
    {
        self.inner.clear();
    }

    /// Puts the documents last, in their order.
    pub fn push_many(&mut self, docs: Vec<Json>)
        ensures
            final(self).inner@ == old(self).inner@ + docs@,
    {
        let mut docs = docs;
        self.inner.append(&mut docs);
    }

    /// The documents that wait, each as compact JSON text.
    pub fn snapshot(&self) -> (r: Vec<String>)
        ensures
            crate::segment::fields::names_view(r@) == rendered(self.inner@, self.inner@.len() as int),
    {
        let mut out: Vec<String> = Vec::new();
        let mut i: usize = 0;
        proof {
            assert(crate::segment::fields::names_view(out@) =~= rendered(self.inner@, 0));
        }
        while i < self.inner.len()
            invariant
                i <= self.inner.len(),
                crate::segment::fields::names_view(out@) == rendered(self.inner@, i as int),
            decreases self.inner.len() - i,
        {
            let ghost before = out@;
            let line = self.inner[i].render();
            out.push(line);
            proof {
                assert(crate::segment::fields::names_view(out@)
                    =~= crate::segment::fields::names_view(before).push(line@));
            }
            i += 1;
        }
        out
    }
}

} // verus!
