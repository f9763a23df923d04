//! The segment selector: the paths that a request reads, by the flat
//! manifest and the generations the query is pinned to.

use vstd::prelude::*;
use crate::listmap::{ListMap, value_at};
use crate::manifest::{copy_paths, format_key, key_text, Manifest};
use crate::search::types::SearchRequest;
use crate::segment::fields::names_view;
use crate::strmap::lookup;

verus! {

/// The selector over a manifest.
#[derive(Debug)]
pub struct SegmentSelector {
    pub store: Manifest,
}

/// The paths of the first `n` shards: for every shard that is pinned,
/// the segments that the manifest holds under the shard and its pinned
/// generation.
pub open spec fn planned(
    segments: Seq<(Seq<char>, Vec<String>)>,
    pins: Seq<(u64, u64)>,
    shards: Seq<u64>,
    n: int,
) -> Seq<Seq<char>>
    decreases n,
{
    if n <= 0 || n > shards.len() {
        Seq::empty()
    } else {
        let prev = planned(segments, pins, shards, n - 1);
        match value_at(pins, shards[n - 1]) {
            Some(gen) => match lookup(segments, key_text(shards[n - 1], gen)) {
                Some(paths) => prev + names_view(paths@),
                None => prev,
            },
            None => prev,
        }
    }
}

impl SegmentSelector {
    /// The paths that a request reads, and the generations it is pinned
    /// to. A request that names segments reads those. Else the pins are
    /// the ones given, or the manifest's where none are given, and the
    /// request reads the segments of the pinned generation of each of
    /// its shards.
    pub fn plan(&self, req: &SearchRequest, pinned: Option<ListMap<u64, u64>>) -> (r: (
        Vec<String>,
        ListMap<u64, u64>,
    ))
        ensures
            req.segments@.len() > 0 ==> names_view(r.0@) == names_view(req.segments@) && r.1.pairs()
                == (match pinned {
                Some(p) => p.pairs(),
                None => Seq::empty(),
            }),
            req.segments@.len() == 0 ==> r.1.pairs() == (match pinned {
                Some(p) => p.pairs(),
                None => self.store.shards.pairs(),
            }) && names_view(r.0@) == (match req.shards {
                Some(shards) => planned(
                    self.store.segments.pairs(),
                    r.1.pairs(),
                    shards@,
                    shards@.len() as int,
                ),
                None => Seq::empty(),
            }),
    {
        if req.segments.len() > 0 {
            let pin = match pinned {
                Some(p) => p,
                None => ListMap::new(),
            };
            return (copy_paths(&req.segments), pin);
        }
        let pin: ListMap<u64, u64> = match pinned {
            Some(p) => p,
            None => {
                let entries = self.store.shards.entries();
                let mut out: ListMap<u64, u64> = ListMap::new();
                let mut i: usize = 0;
                while i < entries.len()
                    invariant
                        i <= entries.len(),
                        entries@ == self.store.shards.pairs(),
                        crate::listmap::distinct_keys(entries@),
                        out.pairs() == entries@.take(i as int),
                    decreases entries.len() - i,
                {
                    proof {
                        let k = entries@[i as int].0;
                        if crate::listmap::holds(out.pairs(), k) {
                            let j = crate::listmap::place_of(out.pairs(), k);
                            assert(entries@[j].0 != entries@[i as int].0);
                        }
                        assert(entries@.take(i + 1) =~= entries@.take(i as int).push(
                            entries@[i as int],
                        ));
                    }
                    out.insert(entries[i].0, entries[i].1);
                    i += 1;
                }
                proof {
                    assert(entries@.take(entries.len() as int) =~= entries@);
                }
                out
            },
        };
        let mut selected: Vec<String> = Vec::new();
        match &req.shards {
            Some(shards) => {
                let mut i: usize = 0;
                proof {
                    assert(names_view(selected@) =~= Seq::<Seq<char>>::empty());
                }
                while i < shards.len()
                    invariant
                        i <= shards.len(),
                        names_view(selected@) == planned(
                            self.store.segments.pairs(),
                            pin.pairs(),
                            shards@,
                            i as int,
                        ),
                    decreases shards.len() - i,
                {
                    let sh = shards[i];
                    match pin.get(&sh) {
                        Some(g) => {
                            let key = format_key(sh, *g);
                            match self.store.segments.get(key.as_str()) {
                                Some(paths) => {
                                    let mut more = copy_paths(paths);
                                    let ghost before = names_view(selected@);
                                    let ghost add = names_view(more@);
                                    selected.append(&mut more);
                                    proof {
                                        assert(names_view(selected@) =~= before + add);
                                    }
                                },
                                None => {},
                            }
                        },
                        None => {},
                    }
                    i += 1;
                }
            },
            None => {
                proof {
                    assert(names_view(selected@) =~= Seq::<Seq<char>>::empty());
                }
            },
        }
        (selected, pin)
    }
}

} // verus!
