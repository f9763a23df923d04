//! The store of manifest pointers: one pointer per shard, changed by
//! compare-and-set on the generation.

use vstd::prelude::*;
use crate::digits::{decimal_digits, format_decimal};
use crate::listmap::{lemma_put, ListMap, put, value_at};
use crate::manifest_ptr::{ManifestPtr, PtrModel};
use crate::text::{chars_of, push_chars, string_of};

verus! {

/// Why the store did not do what it was asked.
#[derive(Debug, Clone, Copy, PartialEq, Eq, Structural)]
pub enum StoreError {
    /// The shard has no pointer.
    NotFound { shard: u64 },
    /// The pointer of the shard is at another generation than expected.
    CasMismatch { current: u64, expected: u64 },
    /// The shard has no pointer to compare with.
    CasMissing { shard: u64 },
}

/// What an error says.
pub open spec fn error_text(e: StoreError) -> Seq<char> {
    match e {
        StoreError::NotFound { shard } => "manifest_ptr not found for shard "@ + decimal_digits(
            shard as nat,
        ),
        StoreError::CasMismatch { current, expected } => "CAS failed: current gen="@
            + decimal_digits(current as nat) + ", expected "@ + decimal_digits(expected as nat),
        StoreError::CasMissing { shard } => "CAS failed: no current pointer for shard "@
            + decimal_digits(shard as nat),
    }
}

impl StoreError {
    /// What the error says.
    pub fn message(&self) -> (r: String)
        ensures
            r@ == error_text(*self),
    {
        let mut out: Vec<char> = Vec::new();
        match self {
            StoreError::NotFound { shard } => {
                let a = chars_of("manifest_ptr not found for shard ");
                push_chars(&mut out, &a);
                let d = format_decimal(*shard);
                push_chars(&mut out, &d);
                proof {
                    assert(out@ =~= error_text(*self));
                }
            },
            StoreError::CasMismatch { current, expected } => {
                let a = chars_of("CAS failed: current gen=");
                push_chars(&mut out, &a);
                let d = format_decimal(*current);
                push_chars(&mut out, &d);
                let b = chars_of(", expected ");
                push_chars(&mut out, &b);
                let e = format_decimal(*expected);
                push_chars(&mut out, &e);
                proof {
                    assert(out@ =~= error_text(*self));
                }
            },
            StoreError::CasMissing { shard } => {
                let a = chars_of("CAS failed: no current pointer for shard ");
                push_chars(&mut out, &a);
                let d = format_decimal(*shard);
                push_chars(&mut out, &d);
                proof {
                    assert(out@ =~= error_text(*self));
                }
            },
        }
        string_of(&out)
    }
}

/// A store of the pointer to the current manifest of every shard.
pub trait ManifestStore {
    /// The pointer that the store holds for the shard, if any.
    spec fn pointer(&self, shard: u64) -> Option<PtrModel>;

    /// The pointer of the shard.
    fn get_ptr(&self, shard: u64) -> (r: Result<ManifestPtr, StoreError>)
        ensures
            match r {
                Ok(p) => self.pointer(shard) == Some(p.model()),
                Err(e) => self.pointer(shard) is None && e == (StoreError::NotFound { shard }),
            },
    ;

    /// Puts `new_ptr` in the place of the shard's pointer, if that is at
    /// the generation `expected_gen`; else nothing changes.
    fn cas_ptr(&mut self, shard: u64, expected_gen: u64, new_ptr: &ManifestPtr) -> (r: Result<
        (),
        StoreError,
    >)
        ensures
            forall|other: u64| other != shard ==> final(self).pointer(other) == old(self).pointer(other),
            match r {
                Ok(_) => (old(self).pointer(shard) matches Some(cur) && cur.gen == expected_gen)
                    && final(self).pointer(shard) == Some(new_ptr.model()),
                Err(e) => final(self).pointer(shard) == old(self).pointer(shard) && (match old(
                    self,
                ).pointer(shard) {
                    Some(cur) => cur.gen != expected_gen && e == (StoreError::CasMismatch {
                        current: cur.gen,
                        expected: expected_gen,
                    }),
                    None => e == (StoreError::CasMissing { shard }),
                }),
            },
    ;
}

/// A store that keeps the pointers in memory.
#[derive(Debug)]
pub struct InMemoryManifestStore {
    pub inner: ListMap<u64, ManifestPtr>,
}

impl InMemoryManifestStore {
    /// A store without pointers.
    pub fn new() -> (r: Self)
        ensures
            r.inner.pairs().len() == 0,
    {
        InMemoryManifestStore { inner: ListMap::new() }
    }

    /// Sets the pointer of the shard.
    pub fn insert(&mut self, shard: u64, ptr: ManifestPtr)
        ensures
            final(self).inner.pairs() == put(old(self).inner.pairs(), shard, ptr),
    {
        self.inner.insert(shard, ptr);
    }
}

impl ManifestStore for InMemoryManifestStore {
    open spec fn pointer(&self, shard: u64) -> Option<PtrModel> {
        match value_at(self.inner.pairs(), shard) {
            Some(p) => Some(p.model()),
            None => None,
        }
    }

    fn get_ptr(&self, shard: u64) -> (r: Result<ManifestPtr, StoreError>) {
        match self.inner.get(&shard) {
            Some(p) => Ok(p.duplicate()),
            None => Err(StoreError::NotFound { shard }),
        }
    }

    fn cas_ptr(&mut self, shard: u64, expected_gen: u64, new_ptr: &ManifestPtr) -> (r: Result<
        (),
        StoreError,
    >) {
        let current: Option<u64> = match self.inner.get(&shard) {
            Some(cur) => Some(cur.gen),
            None => None,
        };
        match current {
            Some(g) => {
                if g == expected_gen {
                    let p = new_ptr.duplicate();
                    proof {
                        assert forall|other: u64| other != shard implies value_at(
                            put(self.inner.pairs(), shard, p),
                            other,
                        ) == value_at(self.inner.pairs(), other) by {
                            lemma_put(self.inner.pairs(), shard, p, other);
                        }
                        lemma_put(self.inner.pairs(), shard, p, shard);
                    }
                    self.inner.insert(shard, p);
                    Ok(())
                } else {
                    Err(StoreError::CasMismatch { current: g, expected: expected_gen })
                }
            },
            None => Err(StoreError::CasMissing { shard }),
        }
    }
}

} // verus!
