//! The manifest: which generation each shard is at, and the segments of
//! each generation. Two shapes are read, a flat one and a versioned one;
//! both become one view, and the flat one is what is written.

use vstd::prelude::*;
use crate::digits::{decimal_digits, format_decimal, parse_u64, parsed_u64};
use crate::listmap::{distinct_keys, lemma_put, ListMap, put, ShardGen, value_at};
use crate::segment::fields::names_view;
use crate::strmap::{lemma_rank_bounds, lex_lt, lookup, pairs_of, rank, StrMap, upserted};
use crate::text::{chars_of, push_chars, string_of};

verus! {

/// One shard of the versioned shape: its generation and the segments of
/// that generation.
#[derive(Debug)]
pub struct ShardEntry {
    pub generation: u64,
    pub segments: Vec<String>,
}

/// The versioned shape of the manifest.
#[derive(Debug)]
pub struct ManifestV1 {
    pub version: u32,
    pub shards: ListMap<u64, ShardEntry>,
}

/// The flat shape of the manifest: the generation of each shard, and the
/// segment paths under keys of the form `shard:gen`.
#[derive(Debug)]
pub struct ManifestFlat {
    pub shards: ListMap<u64, u64>,
    pub segments: StrMap<Vec<String>>,
}

/// The flat shape under the name it has on the write path.
#[derive(Debug)]
pub struct Manifest {
    pub shards: ListMap<u64, u64>,
    pub segments: StrMap<Vec<String>>,
}

/// One segment of a resolved query.
#[derive(Debug, Clone)]
pub struct SegRef {
    pub shard: u64,
    pub gen: u64,
    pub path: String,
}

/// The manifest as the broker holds it, whatever shape it was read from.
#[derive(Debug)]
pub struct ManifestUnified {
    /// The generation that each shard is pinned to.
    pub pin_gen: ListMap<u64, u64>,
    /// The segment paths of a shard's generation.
    pub segs: ListMap<ShardGen, Vec<String>>,
}

/// A file that holds a manifest.
#[derive(Debug, Clone)]
pub struct FsManifestStore {
    pub path: String,
}

/// The index of the first colon of `s`, or its length where it has none.
pub open spec fn first_colon(s: Seq<char>) -> int
    decreases s.len(),
{
    if s.len() == 0 || s[0] == ':' {
        0
    } else {
        1 + first_colon(s.drop_first())
    }
}

/// The shard and generation that a key of the form `shard:gen` names:
/// what stands before the first colon and what stands after it, each
/// read as an unsigned decimal. `None` for any other key.
pub open spec fn key_parsed(key: Seq<char>) -> Option<ShardGen> {
    let i = first_colon(key);
    if 0 <= i < key.len() {
        match (parsed_u64(key.take(i)), parsed_u64(key.skip(i + 1))) {
            (Some(s), Some(g)) => Some(ShardGen { shard: s, generation: g }),
            _ => None,
        }
    } else {
        None
    }
}

/// The key of a shard's generation: both numbers in decimal with a colon
/// between them.
pub open spec fn key_text(shard: u64, generation: u64) -> Seq<char> {
    decimal_digits(shard as nat).push(':') + decimal_digits(generation as nat)
}

proof fn lemma_first_colon(s: Seq<char>, n: int)
    requires
        0 <= n <= s.len(),
        forall|k: int| 0 <= k < n ==> s[k] != ':',
        n < s.len() ==> s[n] == ':',
    ensures
        first_colon(s) == n,
    decreases n,
{
    if n > 0 {
        lemma_first_colon(s.drop_first(), n - 1);
    }
}

/// Reads a key of the form `shard:gen`.
pub fn parse_key(key: &str) -> (r: Option<ShardGen>)
    ensures
        r == key_parsed(key@),
{
    let cs = chars_of(key);
    let mut i: usize = 0;
    while i < cs.len() && cs[i] != ':'
        invariant
            i <= cs.len(),
            forall|k: int| 0 <= k < i ==> cs@[k] != ':',
        decreases cs.len() - i,
    {
        i += 1;
    }
    proof {
        lemma_first_colon(cs@, i as int);
    }
    if i >= cs.len() {
        return None;
    }
    let mut a: Vec<char> = Vec::new();
    let mut b: Vec<char> = Vec::new();
    let mut k: usize = 0;
    while k < i
        invariant
            k <= i < cs.len(),
            a@ == cs@.take(k as int),
        decreases i - k,
    {
        a.push(cs[k]);
        proof {
            assert(a@ =~= cs@.take(k + 1));
        }
        k += 1;
    }
    k = i + 1;
    proof {
        assert(b@ =~= cs@.subrange(i + 1, i + 1));
    }
    while k < cs.len()
        invariant
            i < k <= cs.len(),
            b@ == cs@.subrange(i + 1, k as int),
        decreases cs.len() - k,
    {
        b.push(cs[k]);
        proof {
            assert(b@ =~= cs@.subrange(i + 1, k + 1));
        }
        k += 1;
    }
    proof {
        assert(b@ =~= cs@.skip(i + 1));
    }
    match (parse_u64(&a), parse_u64(&b)) {
        (Some(s), Some(g)) => Some(ShardGen { shard: s, generation: g }),
        _ => None,
    }
}

/// Writes the key of a shard's generation.
pub fn format_key(shard: u64, generation: u64) -> (r: String)
    ensures
        r@ == key_text(shard, generation),
{
    let mut out = format_decimal(shard);
    out.push(':');
    let g = format_decimal(generation);
    push_chars(&mut out, &g);
    string_of(&out)
}

/// The pinned generations of the first `n` shards of the versioned shape.
pub open spec fn v1_pins(shards: Seq<(u64, ShardEntry)>, n: int) -> Seq<(u64, u64)>
    decreases n,
{
    if n <= 0 || n > shards.len() {
        Seq::empty()
    } else {
        put(v1_pins(shards, n - 1), shards[n - 1].0, shards[n - 1].1.generation)
    }
}

/// A path list as texts.
pub open spec fn paths_view(v: Vec<String>) -> Seq<Seq<char>> {
    names_view(v@)
}

/// The segment lists of a unified manifest as texts.
pub open spec fn segs_view(segs: Seq<(ShardGen, Vec<String>)>) -> Seq<(ShardGen, Seq<Seq<char>>)> {
    segs.map_values(|e: (ShardGen, Vec<String>)| (e.0, paths_view(e.1)))
}

/// The segment lists of the first `n` shards of the versioned shape.
pub open spec fn v1_segs(shards: Seq<(u64, ShardEntry)>, n: int) -> Seq<
    (ShardGen, Seq<Seq<char>>),
>
    decreases n,
{
    if n <= 0 || n > shards.len() {
        Seq::empty()
    } else {
        put(
            v1_segs(shards, n - 1),
            ShardGen { shard: shards[n - 1].0, generation: shards[n - 1].1.generation },
            paths_view(shards[n - 1].1.segments),
        )
    }
}

/// The segment lists of the first `n` entries of the flat shape: an entry
/// whose key is no `shard:gen` is left out.
pub open spec fn flat_segs(entries: Seq<(Seq<char>, Vec<String>)>, n: int) -> Seq<
    (ShardGen, Seq<Seq<char>>),
>
    decreases n,
{
    if n <= 0 || n > entries.len() {
        Seq::empty()
    } else {
        match key_parsed(entries[n - 1].0) {
            Some(k) => put(flat_segs(entries, n - 1), k, paths_view(entries[n - 1].1)),
            None => flat_segs(entries, n - 1),
        }
    }
}

/// Binding a key in a map of path lists binds it in the map of their texts.
pub proof fn lemma_put_segs_view(segs: Seq<(ShardGen, Vec<String>)>, k: ShardGen, v: Vec<String>)
    requires
        distinct_keys(segs),
    ensures
        segs_view(put(segs, k, v)) == put(segs_view(segs), k, paths_view(v)),
{
    let sv = segs_view(segs);
    assert forall|i: int, j: int| 0 <= i < j < sv.len() implies (#[trigger] sv[i]).0 != (
    #[trigger] sv[j]).0 by {
        assert(sv[i].0 == segs[i].0 && sv[j].0 == segs[j].0);
    }
    if crate::listmap::holds(segs, k) {
        let i = crate::listmap::place_of(segs, k);
        assert(sv[i].0 == k);
        crate::listmap::lemma_place(segs, i);
        crate::listmap::lemma_place(sv, i);
    } else if crate::listmap::holds(sv, k) {
        let i = crate::listmap::place_of(sv, k);
        assert(segs[i].0 == k);
    }
    assert(segs_view(put(segs, k, v)) =~= put(sv, k, paths_view(v)));
}

/// A copy of a list of strings.
pub fn copy_paths(v: &Vec<String>) -> (r: Vec<String>)
    ensures
        names_view(r@) == names_view(v@),
{
    let mut out: Vec<String> = Vec::new();
    let mut i: usize = 0;
    while i < v.len()
        invariant
            i <= v.len(),
            names_view(out@) == names_view(v@).take(i as int),
        decreases v.len() - i,
    {
        let ghost before = out@;
        out.push(v[i].clone());
        proof {
            assert(names_view(out@) =~= names_view(before).push(v@[i as int]@));
            assert(names_view(v@).take(i + 1) =~= names_view(v@).take(i as int).push(
                v@[i as int]@,
            ));
        }
        i += 1;
    }
    proof {
        assert(names_view(v@).take(v.len() as int) =~= names_view(v@));
    }
    out
}

/// One resolved segment as texts.
pub struct SegRefModel {
    pub shard: u64,
    pub gen: u64,
    pub path: Seq<char>,
}

/// The texts of resolved segments.
pub open spec fn refs_view(refs: Seq<SegRef>) -> Seq<SegRefModel> {
    refs.map_values(|r: SegRef| SegRefModel { shard: r.shard, gen: r.gen, path: r.path@ })
}

/// The segments `paths` of a shard's generation.
pub open spec fn refs_of(shard: u64, gen: u64, paths: Seq<Seq<char>>) -> Seq<SegRefModel> {
    paths.map_values(|p: Seq<char>| SegRefModel { shard, gen, path: p })
}

/// The segments that the first `n` shards resolve to: for every shard
/// that is pinned, the segments of its pinned generation.
pub open spec fn resolved_refs(
    pins: Seq<(u64, u64)>,
    segs: Seq<(ShardGen, Seq<Seq<char>>)>,
    shards: Seq<u64>,
    n: int,
) -> Seq<SegRefModel>
    decreases n,
{
    if n <= 0 || n > shards.len() {
        Seq::empty()
    } else {
        let prev = resolved_refs(pins, segs, shards, n - 1);
        let sh = shards[n - 1];
        match value_at(pins, sh) {
            Some(gen) => match value_at(segs, ShardGen { shard: sh, generation: gen }) {
                Some(paths) => prev + refs_of(sh, gen, paths),
                None => prev,
            },
            None => prev,
        }
    }
}

/// The pinned generations of the first `n` shards, for those that are
/// pinned.
pub open spec fn resolved_pins(pins: Seq<(u64, u64)>, shards: Seq<u64>, n: int) -> Seq<(u64, u64)>
    decreases n,
{
    if n <= 0 || n > shards.len() {
        Seq::empty()
    } else {
        let prev = resolved_pins(pins, shards, n - 1);
        match value_at(pins, shards[n - 1]) {
            Some(gen) => put(prev, shards[n - 1], gen),
            None => prev,
        }
    }
}

/// Looking a key up among the texts gives the texts of what it maps to.
pub proof fn lemma_value_segs_view(segs: Seq<(ShardGen, Vec<String>)>, k: ShardGen)
    requires
        distinct_keys(segs),
    ensures
        distinct_keys(segs_view(segs)),
        value_at(segs_view(segs), k) == (match value_at(segs, k) {
            Some(v) => Some(paths_view(v)),
            None => None,
        }),
{
    let sv = segs_view(segs);
    assert forall|i: int, j: int| 0 <= i < j < sv.len() implies (#[trigger] sv[i]).0 != (
    #[trigger] sv[j]).0 by {
        assert(sv[i].0 == segs[i].0 && sv[j].0 == segs[j].0);
    }
    if crate::listmap::holds(segs, k) {
        let i = crate::listmap::place_of(segs, k);
        assert(sv[i].0 == k);
        crate::listmap::lemma_place(segs, i);
        crate::listmap::lemma_place(sv, i);
    } else if crate::listmap::holds(sv, k) {
        let i = crate::listmap::place_of(sv, k);
        assert(segs[i].0 == k);
    }
}

/// The highest generation that the first `n` entries hold for the shard.
pub open spec fn highest_gen(segs: Seq<(ShardGen, Vec<String>)>, shard: u64, n: int) -> Option<u64>
    decreases n,
{
    if n <= 0 || n > segs.len() {
        None
    } else {
        let prev = highest_gen(segs, shard, n - 1);
        let k = segs[n - 1].0;
        if k.shard != shard {
            prev
        } else {
            match prev {
                Some(b) => if b >= k.generation {
                    Some(b)
                } else {
                    Some(k.generation)
                },
                None => Some(k.generation),
            }
        }
    }
}

/// The generation under which a shard is shown: the one it is pinned to,
/// or for a shard without a pin the highest one that has segments.
pub open spec fn shown_gen(m: ManifestUnified, shard: u64) -> Option<u64> {
    match value_at(m.pin_gen.pairs(), shard) {
        Some(g) => Some(g),
        None => highest_gen(m.segs.pairs(), shard, m.segs.pairs().len() as int),
    }
}

impl ManifestUnified {
    /// What the manifest shows of a shard: its generation and the
    /// segments of that generation; `None` for a shard it does not know.
    pub fn shard_view(&self, shard: u64) -> (r: Option<(u64, Vec<String>)>)
        ensures
            match r {
                Some((gen, paths)) => shown_gen(*self, shard) == Some(gen) && names_view(paths@)
                    == (match value_at(
                    segs_view(self.segs.pairs()),
                    ShardGen { shard, generation: gen },
                ) {
                    Some(p) => p,
                    None => Seq::empty(),
                }),
                None => shown_gen(*self, shard) is None,
            },
    {
        let gen: u64 = match self.pin_gen.get(&shard) {
            Some(g) => *g,
            None => {
                let entries = self.segs.entries();
                let mut best: Option<u64> = None;
                let mut i: usize = 0;
                while i < entries.len()
                    invariant
                        i <= entries.len(),
                        entries@ == self.segs.pairs(),
                        best == highest_gen(self.segs.pairs(), shard, i as int),
                    decreases entries.len() - i,
                {
                    let k = entries[i].0;
                    if k.shard == shard {
                        best = match best {
                            Some(b) => if b >= k.generation {
                                Some(b)
                            } else {
                                Some(k.generation)
                            },
                            None => Some(k.generation),
                        };
                    }
                    i += 1;
                }
                match best {
                    Some(b) => b,
                    None => {
                        return None;
                    },
                }
            },
        };
        let key = ShardGen { shard, generation: gen };
        proof {
            let _ = self.segs.pairs();
        }
        let paths = match self.segs.get(&key) {
            Some(p) => {
                proof {
                    lemma_value_segs_view(self.segs.pairs(), key);
                }
                copy_paths(p)
            },
            None => {
                proof {
                    lemma_value_segs_view(self.segs.pairs(), key);
                }
                Vec::new()
            },
        };
        Some((gen, paths))
    }

    /// The view of a manifest of the versioned shape: every shard pinned
    /// to its generation, with the segments of that generation.
    pub fn from_v1(m: ManifestV1) -> (r: Self)
        ensures
            r.pin_gen.pairs() == v1_pins(m.shards.pairs(), m.shards.pairs().len() as int),
            segs_view(r.segs.pairs()) == v1_segs(m.shards.pairs(), m.shards.pairs().len() as int),
    {
        let mut pin_gen: ListMap<u64, u64> = ListMap::new();
        let mut segs: ListMap<ShardGen, Vec<String>> = ListMap::new();
        let entries = m.shards.entries();
        let mut i: usize = 0;
        proof {
            assert(segs_view(segs.pairs()) =~= Seq::<(ShardGen, Seq<Seq<char>>)>::empty());
        }
        while i < entries.len()
            invariant
                i <= entries.len(),
                entries@ == m.shards.pairs(),
                distinct_keys(segs.pairs()),
                pin_gen.pairs() == v1_pins(entries@, i as int),
                segs_view(segs.pairs()) == v1_segs(entries@, i as int),
            decreases entries.len() - i,
        {
            let sh = entries[i].0;
            let gen = entries[i].1.generation;
            pin_gen.insert(sh, gen);
            let paths = copy_paths(&entries[i].1.segments);
            let ghost before = segs.pairs();
            segs.insert(ShardGen { shard: sh, generation: gen }, paths);
            proof {
                lemma_put_segs_view(before, ShardGen { shard: sh, generation: gen }, paths);
            }
            i += 1;
        }
        ManifestUnified { pin_gen, segs }
    }

    /// The view of a manifest of the flat shape: the shards pinned as the
    /// manifest says, and the segments of every key of the form
    /// `shard:gen`.
    pub fn from_flat(m: ManifestFlat) -> (r: Self)
        ensures
            r.pin_gen.pairs() == m.shards.pairs(),
            segs_view(r.segs.pairs()) == flat_segs(
                m.segments.pairs(),
                m.segments.pairs().len() as int,
            ),
    {
        let ManifestFlat { shards, segments } = m;
        let mut segs: ListMap<ShardGen, Vec<String>> = ListMap::new();
        let entries = segments.entries();
        let mut i: usize = 0;
        proof {
            assert(segs_view(segs.pairs()) =~= Seq::<(ShardGen, Seq<Seq<char>>)>::empty());
        }
        while i < entries.len()
            invariant
                i <= entries.len(),
                pairs_of(entries@) == segments.pairs(),
                distinct_keys(segs.pairs()),
                segs_view(segs.pairs()) == flat_segs(segments.pairs(), i as int),
            decreases entries.len() - i,
        {
            proof {
                assert(pairs_of(entries@)[i as int] == (entries@[i as int].0@, entries@[i as int].1));
            }
            match parse_key(entries[i].0.as_str()) {
                Some(k) => {
                    let paths = copy_paths(&entries[i].1);
                    let ghost before = segs.pairs();
                    segs.insert(k, paths);
                    proof {
                        lemma_put_segs_view(before, k, paths);
                    }
                },
                None => {},
            }
            i += 1;
        }
        ManifestUnified { pin_gen: shards, segs }
    }

    /// The segments to search for the shards `shards`, and the generation
    /// each of them is pinned to. Only the pinned generation of a shard
    /// is given; a shard without a pin gives nothing.
    pub fn resolve(&self, shards: &[u64]) -> (r: (Vec<SegRef>, ListMap<u64, u64>))
        ensures
            refs_view(r.0@) == resolved_refs(
                self.pin_gen.pairs(),
                segs_view(self.segs.pairs()),
                shards@,
                shards@.len() as int,
            ),
            r.1.pairs() == resolved_pins(self.pin_gen.pairs(), shards@, shards@.len() as int),
    {
        let mut out: Vec<SegRef> = Vec::new();
        let mut pin: ListMap<u64, u64> = ListMap::new();
        let mut i: usize = 0;
        let ghost sv = segs_view(self.segs.pairs());
        proof {
            assert(refs_view(out@) =~= Seq::<SegRefModel>::empty());
        }
        while i < shards.len()
            invariant
                i <= shards.len(),
                sv == segs_view(self.segs.pairs()),
                refs_view(out@) == resolved_refs(self.pin_gen.pairs(), sv, shards@, i as int),
                pin.pairs() == resolved_pins(self.pin_gen.pairs(), shards@, i as int),
            decreases shards.len() - i,
        {
            let sh = shards[i];
            match self.pin_gen.get(&sh) {
                Some(g) => {
                    let gen: u64 = *g;
                    pin.insert(sh, gen);
                    let key = ShardGen { shard: sh, generation: gen };
                    match self.segs.get(&key) {
                        Some(paths) => {
                            proof {
                                lemma_value_segs_view(self.segs.pairs(), key);
                            }
                            let ghost base = out@;
                            let ghost want = refs_of(sh, gen, paths_view(*paths));
                            let mut k: usize = 0;
                            proof {
                                assert(refs_view(base) + want.take(0) =~= refs_view(base));
                            }
                            while k < paths.len()
                                invariant
                                    k <= paths.len(),
                                    want == refs_of(sh, gen, paths_view(*paths)),
                                    refs_view(out@) == refs_view(base) + want.take(k as int),
                                decreases paths.len() - k,
                            {
                                let ghost prev = out@;
                                out.push(SegRef { shard: sh, gen, path: paths[k].clone() });
                                proof {
                                    assert(want[k as int] == SegRefModel {
                                        shard: sh,
                                        gen,
                                        path: paths@[k as int]@,
                                    });
                                    assert(refs_view(out@) =~= refs_view(prev).push(
                                        want[k as int],
                                    ));
                                    assert(want.take(k + 1) =~= want.take(k as int).push(
                                        want[k as int],
                                    ));
                                }
                                k += 1;
                            }
                            proof {
                                assert(want.take(paths.len() as int) =~= want);
                            }
                        },
                        None => {
                            proof {
                                lemma_value_segs_view(self.segs.pairs(), key);
                            }
                        },
                    }
                },
                None => {},
            }
            i += 1;
        }
        (out, pin)
    }
}

/// The highest generation that the first `n` segment keys name for the
/// shard, or `floor` where none is above it.
pub open spec fn max_gen_in(
    entries: Seq<(Seq<char>, Vec<String>)>,
    shard: u64,
    floor: u64,
    n: int,
) -> u64
    decreases n,
{
    if n <= 0 || n > entries.len() {
        floor
    } else {
        let prev = max_gen_in(entries, shard, floor, n - 1);
        match key_parsed(entries[n - 1].0) {
            Some(k) => if k.shard == shard && k.generation > prev {
                k.generation
            } else {
                prev
            },
            None => prev,
        }
    }
}

/// The generation that the shard is at: the higher of what the manifest
/// says of the shard and of the highest generation that a segment key
/// names for it; zero for a shard the manifest does not know.
pub open spec fn current_gen(m: ManifestFlat, shard: u64) -> u64 {
    max_gen_in(
        m.segments.pairs(),
        shard,
        match value_at(m.shards.pairs(), shard) {
            Some(g) => g,
            None => 0,
        },
        m.segments.pairs().len() as int,
    )
}

/// The generation after `current`; the largest value stays where it is.
pub open spec fn next_gen(current: u64) -> u64 {
    if current == u64::MAX {
        current
    } else {
        (current + 1) as u64
    }
}

/// The highest generation only grows with more keys.
pub proof fn lemma_max_gen_floor(
    entries: Seq<(Seq<char>, Vec<String>)>,
    shard: u64,
    floor: u64,
    n: int,
)
    ensures
        max_gen_in(entries, shard, floor, n) >= floor,
    decreases n,
{
    if n > 0 && n <= entries.len() {
        lemma_max_gen_floor(entries, shard, floor, n - 1);
    }
}

/// The generation that a publish gives a shard is above every generation
/// that the manifest knew of the shard, unless that was the largest
/// value already.
pub proof fn lemma_next_gen_is_above(m: ManifestFlat, shard: u64, n: int)
    requires
        0 <= n <= m.segments.pairs().len(),
        current_gen(m, shard) < u64::MAX,
    ensures
        value_at(m.shards.pairs(), shard) matches Some(g) ==> next_gen(current_gen(m, shard)) > g,
        forall|i: int|
            0 <= i < m.segments.pairs().len() ==> (key_parsed(
                (#[trigger] m.segments.pairs()[i]).0,
            ) matches Some(k) ==> (k.shard == shard ==> next_gen(current_gen(m, shard))
                > k.generation)),
{
    let entries = m.segments.pairs();
    let floor = match value_at(m.shards.pairs(), shard) {
        Some(g) => g,
        None => 0,
    };
    lemma_max_gen_floor(entries, shard, floor, entries.len() as int);
    assert forall|i: int| 0 <= i < entries.len() implies (key_parsed((#[trigger] entries[i]).0)
        matches Some(k) ==> (k.shard == shard ==> next_gen(current_gen(m, shard))
        > k.generation)) by {
        lemma_max_gen_covers(entries, shard, floor, entries.len() as int, i);
    }
}

proof fn lemma_max_gen_covers(
    entries: Seq<(Seq<char>, Vec<String>)>,
    shard: u64,
    floor: u64,
    n: int,
    i: int,
)
    requires
        0 <= i < n <= entries.len(),
    ensures
        key_parsed(entries[i].0) matches Some(k) ==> (k.shard == shard ==> max_gen_in(
            entries,
            shard,
            floor,
            n,
        ) >= k.generation),
    decreases n,
{
    if i < n - 1 {
        lemma_max_gen_covers(entries, shard, floor, n - 1, i);
    }
}

/// The segment lists of a flat manifest as texts.
pub open spec fn flat_view(segments: Seq<(Seq<char>, Vec<String>)>) -> Seq<
    (Seq<char>, Seq<Seq<char>>),
> {
    segments.map_values(|e: (Seq<char>, Vec<String>)| (e.0, paths_view(e.1)))
}

/// The segment lists, in the flat shape, of the first `n` shards of the
/// versioned shape: the segments of each shard under the key of the
/// shard and its generation.
pub open spec fn v1_flat(shards: Seq<(u64, ShardEntry)>, n: int) -> Seq<(Seq<char>, Seq<Seq<char>>)>
    decreases n,
{
    if n <= 0 || n > shards.len() {
        Seq::empty()
    } else {
        upserted(
            v1_flat(shards, n - 1),
            key_text(shards[n - 1].0, shards[n - 1].1.generation),
            paths_view(shards[n - 1].1.segments),
        )
    }
}

proof fn lemma_rank_flat_view(pairs: Seq<(Seq<char>, Vec<String>)>, k: Seq<char>)
    ensures
        rank(flat_view(pairs), k) == rank(pairs, k),
    decreases pairs.len(),
{
    if pairs.len() > 0 {
        assert(flat_view(pairs)[0].0 == pairs[0].0);
        if lex_lt(pairs[0].0, k) {
            assert(flat_view(pairs).drop_first() =~= flat_view(pairs.drop_first()));
            lemma_rank_flat_view(pairs.drop_first(), k);
        }
    }
}

/// Binding a key to a path list binds it to the texts of that list.
proof fn lemma_upserted_flat_view(pairs: Seq<(Seq<char>, Vec<String>)>, k: Seq<char>, v: Vec<String>)
    ensures
        flat_view(upserted(pairs, k, v)) == upserted(flat_view(pairs), k, paths_view(v)),
{
    lemma_rank_flat_view(pairs, k);
    lemma_rank_bounds(pairs, k);
    let p = rank(pairs, k);
    if p < pairs.len() {
        assert(flat_view(pairs)[p].0 == pairs[p].0);
    }
    assert(flat_view(upserted(pairs, k, v)) =~= upserted(flat_view(pairs), k, paths_view(v)));
}

impl ManifestFlat {
    /// An empty manifest.
    pub fn empty() -> (r: Self)
        ensures
            r.shards.pairs().len() == 0,
            r.segments.pairs().len() == 0,
    {
        ManifestFlat { shards: ListMap::new(), segments: StrMap::new() }
    }

    /// The flat shape of a manifest of the versioned shape: every shard
    /// at its generation, and the segments of that generation under the
    /// key of the two.
    pub fn from_v1(m: &ManifestV1) -> (r: Self)
        ensures
            r.shards.pairs() == v1_pins(m.shards.pairs(), m.shards.pairs().len() as int),
            flat_view(r.segments.pairs()) == v1_flat(
                m.shards.pairs(),
                m.shards.pairs().len() as int,
            ),
    {
        let mut shards: ListMap<u64, u64> = ListMap::new();
        let mut segments: StrMap<Vec<String>> = StrMap::new();
        let entries = m.shards.entries();
        let mut i: usize = 0;
        proof {
            assert(flat_view(segments.pairs()) =~= Seq::<(Seq<char>, Seq<Seq<char>>)>::empty());
        }
        while i < entries.len()
            invariant
                i <= entries.len(),
                entries@ == m.shards.pairs(),
                shards.pairs() == v1_pins(entries@, i as int),
                flat_view(segments.pairs()) == v1_flat(entries@, i as int),
            decreases entries.len() - i,
        {
            let sh = entries[i].0;
            let gen = entries[i].1.generation;
            shards.insert(sh, gen);
            let paths = copy_paths(&entries[i].1.segments);
            let ghost before = segments.pairs();
            segments.insert(format_key(sh, gen), paths);
            proof {
                lemma_upserted_flat_view(before, key_text(sh, gen), paths);
            }
            i += 1;
        }
        ManifestFlat { shards, segments }
    }

    /// The generation that the shard is at.
    pub fn current_generation(&self, shard: u64) -> (g: u64)
        ensures
            g == current_gen(*self, shard),
            value_at(self.shards.pairs(), shard) matches Some(old_gen) ==> g >= old_gen,
            distinct_keys(self.shards.pairs()),
    {
        let mut current: u64 = match self.shards.get(&shard) {
            Some(g) => *g,
            None => 0,
        };
        let ghost floor = current;
        let entries = self.segments.entries();
        let mut i: usize = 0;
        while i < entries.len()
            invariant
                i <= entries.len(),
                pairs_of(entries@) == self.segments.pairs(),
                current == max_gen_in(self.segments.pairs(), shard, floor, i as int),
            decreases entries.len() - i,
        {
            proof {
                assert(pairs_of(entries@)[i as int].0 == entries@[i as int].0@);
            }
            match parse_key(entries[i].0.as_str()) {
                Some(k) => {
                    if k.shard == shard && k.generation > current {
                        current = k.generation;
                    }
                },
                None => {},
            }
            i += 1;
        }
        proof {
            lemma_max_gen_floor(
                self.segments.pairs(),
                shard,
                floor,
                self.segments.pairs().len() as int,
            );
        }
        current
    }

    /// Publishes a segment of the shard under its next generation, and
    /// gives that generation. The shard is pinned to it, and the path is
    /// put last among the segments under the key of the shard and the
    /// generation.
    pub fn append_segment(&mut self, shard: u64, seg_path: String) -> (g: u64)
        ensures
            g == next_gen(current_gen(*old(self), shard)),
            final(self).shards.pairs() == put(old(self).shards.pairs(), shard, g),
            value_at(final(self).shards.pairs(), shard) == Some(g),
            value_at(old(self).shards.pairs(), shard) matches Some(before) ==> g >= before && (
            before < u64::MAX ==> g > before),
            exists|paths: Vec<String>|
                final(self).segments.pairs() == upserted(
                    old(self).segments.pairs(),
                    key_text(shard, g),
                    paths,
                ) && names_view(paths@) == (match lookup(
                    old(self).segments.pairs(),
                    key_text(shard, g),
                ) {
                    Some(had) => names_view(had@),
                    None => Seq::empty(),
                }).push(seg_path@),
    {
        let current = self.current_generation(shard);
        let g: u64 = if current == u64::MAX {
            current
        } else {
            current + 1
        };
        proof {
            lemma_put(self.shards.pairs(), shard, g, shard);
        }
        self.shards.insert(shard, g);
        let key = format_key(shard, g);
        let mut paths: Vec<String> = match self.segments.get(key.as_str()) {
            Some(had) => copy_paths(had),
            None => Vec::new(),
        };
        let ghost had_view = names_view(paths@);
        paths.push(seg_path);
        proof {
            assert(names_view(paths@) =~= had_view.push(seg_path@));
        }
        self.segments.insert(key, paths);
        g
    }
}

} // verus!
