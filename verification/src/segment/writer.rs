//! The segment writer: from a text of one JSON document per line to the
//! six files of a binary segment.

use vstd::prelude::*;
use vstd::utf8::encode_utf8;
use croaring::Bitmap;
use crate::bitmap::{bitmap_add, bitmap_members, bitmap_new, bitmap_portable};
use crate::doc::{folded, StoredDoc};
use crate::gram::{strings_view, trigram_windows, trigrams};
use crate::segment::bytes::{seal, sealed};
use crate::segment::docs::{DocModel, docs_dat_bytes, encode_docs_dat, models_of, names_of_ids};
use crate::segment::error::SegmentError;
use crate::segment::fields::{
    dict_bytes, encode_fields_dat, encode_fields_idx, FieldRecord, fields_idx_bytes, masks_stored,
    names_view, sets_of,
};
use crate::segment::grams::{
    encode_grams, encode_grams_idx, gram_key, gram_records, grams_idx_bytes, groups_fit,
    key_of_gram, pack, pack_pair, postings_blob, sorted_unique, sorted_unique_of,
};
use crate::segment::input::{
    input_models, input_of, InputDoc, InputModel, lines_of, read_input, split_lines,
};
use crate::segment::laws::segment_fits;
use crate::segment::meta::{
    meta_bytes, META_HEADER_LEN, META_MAGIC, META_VERSION, MetaHeader, write_meta_with_crc,
};
use crate::strmap::{has_key, keys_sorted, lemma_upserted_lookup, lookup, pairs_of, StrMap};
use crate::text::{byte_offset, lemma_byte_offset_monotonic};

verus! {

/// The six files of a binary segment, each with its checksum footer.
#[derive(Debug)]
pub struct SegmentImage {
    pub meta: Vec<u8>,
    pub grams_idx: Vec<u8>,
    pub grams_dat: Vec<u8>,
    pub fields_idx: Vec<u8>,
    pub fields_dat: Vec<u8>,
    pub docs_dat: Vec<u8>,
}

/// Whether a leaf of one of the first `d` documents, or one of the first
/// `l` leaves of document `d`, has the path `name`.
pub open spec fn occurs_upto(docs: Seq<InputModel>, d: int, l: int, name: Seq<char>) -> bool {
    exists|x: int, y: int|
        0 <= x < docs.len() && 0 <= y < docs[x].leaves.len() && (x < d || (x == d && y < l))
            && #[trigger] docs[x].leaves[y].0 == name
}

/// Whether a leaf of some document has the path `name`.
pub open spec fn name_occurs(docs: Seq<InputModel>, name: Seq<char>) -> bool {
    occurs_upto(docs, docs.len() as int, 0, name)
}

/// Whether `ids` lists, in increasing order and each once, exactly the
/// paths that occur among the leaves of `docs`. The index of a path in
/// `ids` is its field id.
pub open spec fn names_of(ids: Seq<(Seq<char>, ())>, docs: Seq<InputModel>) -> bool {
    keys_sorted(ids) && forall|name: Seq<char>| has_key(ids, name) <==> name_occurs(docs, name)
}

/// Whether a leaf of the document `doc` has the path `name`.
pub open spec fn has_leaf(doc: InputModel, name: Seq<char>) -> bool {
    exists|y: int| 0 <= y < doc.leaves.len() && #[trigger] doc.leaves[y].0 == name
}

/// Whether one of the first `l` leaves of the document has the path `name`.
pub open spec fn has_leaf_before(doc: InputModel, l: int, name: Seq<char>) -> bool {
    exists|y: int| 0 <= y < doc.leaves.len() && y < l && #[trigger] doc.leaves[y].0 == name
}

/// The ids of the documents that have a leaf with the path `name`.
pub open spec fn mask_of(docs: Seq<InputModel>, name: Seq<char>) -> Set<u32> {
    Set::new(|x: u32| x < docs.len() && has_leaf(docs[x as int], name))
}

/// The masks of the fields `ids`, by field id.
pub open spec fn masks_of(docs: Seq<InputModel>, ids: Seq<(Seq<char>, ())>) -> Seq<Set<u32>> {
    Seq::new(ids.len(), |f: int| mask_of(docs, ids[f].0))
}

/// The key of a three-character window: the first three bytes of its
/// UTF-8 encoding, the first weighing most.
pub open spec fn window_key(w: Seq<char>) -> u32 {
    let b = encode_utf8(w);
    (b[0] as u32 * 65536 + b[1] as u32 * 256 + b[2] as u32) as u32
}

/// The key and doc id pairs that the text `t` of document `d` gives: one
/// per three-character window.
pub open spec fn text_grams(t: Seq<char>, d: u32) -> Seq<u64> {
    trigram_windows(t).map_values(|w: Seq<char>| pack(window_key(w), d))
}

/// The pairs of the first `n` leaves of a document.
pub open spec fn leaves_grams(leaves: Seq<(Seq<char>, Seq<char>)>, d: u32, n: int) -> Seq<u64>
    decreases n,
{
    if n <= 0 || n > leaves.len() {
        Seq::empty()
    } else {
        leaves_grams(leaves, d, n - 1) + text_grams(leaves[n - 1].1, d)
    }
}

/// The pairs of the first `n` documents, the id of a document being its
/// index.
pub open spec fn docs_grams(docs: Seq<InputModel>, n: int) -> Seq<u64>
    decreases n,
{
    if n <= 0 || n > docs.len() {
        Seq::empty()
    } else {
        docs_grams(docs, n - 1) + leaves_grams(
            docs[n - 1].leaves,
            (n - 1) as u32,
            docs[n - 1].leaves.len() as int,
        )
    }
}

/// The documents as `docs.dat` stores them: of leaves with the same path
/// the last one stays.
pub open spec fn stored_models(docs: Seq<InputModel>) -> Seq<DocModel> {
    docs.map_values(|d: InputModel| DocModel { ext_id: d.ext_id, texts: folded(d.leaves) })
}

/// Whether the files `img` are a segment of the documents `docs`, with the
/// field names `ids`, the sorted pairs `p` and the masks framed in `fdat`
/// as `frecs` says.
pub open spec fn image_holds_with(
    img: SegmentImage,
    docs: Seq<InputModel>,
    ids: Seq<(Seq<char>, ())>,
    p: Seq<u64>,
    frecs: Seq<FieldRecord>,
    fdat: Seq<u8>,
) -> bool {
    let recs = gram_records(p, 0, 0);
    &&& names_of(ids, docs)
    &&& sorted_unique_of(p, docs_grams(docs, docs.len() as int))
    &&& img.grams_dat@ == sealed(postings_blob(p, 0))
    &&& img.grams_idx@ == sealed(grams_idx_bytes(recs))
    &&& masks_stored(fdat, frecs, masks_of(docs, ids))
    &&& img.fields_dat@ == sealed(fdat)
    &&& img.fields_idx@ == sealed(fields_idx_bytes(names_of_ids(ids), frecs))
    &&& img.docs_dat@ == sealed(docs_dat_bytes(stored_models(docs), ids))
    &&& img.meta@ == sealed(
        meta_bytes(
            MetaHeader {
                magic: META_MAGIC,
                version: META_VERSION,
                header_len: META_HEADER_LEN,
                doc_count: docs.len() as u64,
                gram_count: recs.len() as u64,
                grams_idx_len: grams_idx_bytes(recs).len() as u64,
                grams_dat_len: postings_blob(p, 0).len() as u64,
                fields_idx_len: fields_idx_bytes(names_of_ids(ids), frecs).len() as u64,
                fields_dat_len: fdat.len() as u64,
                docs_dat_len: docs_dat_bytes(stored_models(docs), ids).len() as u64,
            },
        ),
    )
}

/// Whether the files `img` are a segment of the documents `docs`: the
/// trigram index lists for every key the documents with a window of that
/// key, the masks list for every field the documents that have it, and
/// `docs.dat` holds the documents, all in the layout of the format.
pub open spec fn image_holds(img: SegmentImage, docs: Seq<InputModel>) -> bool {
    exists|ids: Seq<(Seq<char>, ())>, p: Seq<u64>, frecs: Seq<FieldRecord>, fdat: Seq<u8>|
        image_holds_with(img, docs, ids, p, frecs, fdat) && segment_fits(docs, ids, p, frecs)
}

/// A window of three characters has at least three bytes, so its key is
/// defined.
pub proof fn lemma_window_key(w: Seq<char>)
    requires
        w.len() == 3,
    ensures
        gram_key(w) == Some(window_key(w)),
{
    lemma_byte_offset_monotonic(w, 0, 3);
    assert(w.take(3) =~= w);
    assert(w.take(0) =~= Seq::<char>::empty());
    assert(encode_utf8(Seq::<char>::empty()).len() == 0);
    assert(byte_offset(w, 0) == 0);
}

proof fn lemma_leaves_grams_hold(
    leaves: Seq<(Seq<char>, Seq<char>)>,
    d: u32,
    n: int,
    l: int,
    w: int,
)
    requires
        0 <= l < n <= leaves.len(),
        0 <= w < trigram_windows(leaves[l].1).len(),
    ensures
        leaves_grams(leaves, d, n).contains(pack(window_key(trigram_windows(leaves[l].1)[w]), d)),
    decreases n,
{
    let x = pack(window_key(trigram_windows(leaves[l].1)[w]), d);
    let prev = leaves_grams(leaves, d, n - 1);
    let now = leaves_grams(leaves, d, n);
    if l < n - 1 {
        lemma_leaves_grams_hold(leaves, d, n - 1, l, w);
        let k = choose|k: int| 0 <= k < prev.len() && prev[k] == x;
        assert(now[k] == x);
    } else {
        assert(text_grams(leaves[l].1, d)[w] == x);
        assert(now[prev.len() + w] == x);
    }
}

proof fn lemma_docs_grams_hold(docs: Seq<InputModel>, n: int, d: int, l: int, w: int)
    requires
        0 <= d < n <= docs.len(),
        0 <= l < docs[d].leaves.len(),
        0 <= w < trigram_windows(docs[d].leaves[l].1).len(),
    ensures
        docs_grams(docs, n).contains(
            pack(window_key(trigram_windows(docs[d].leaves[l].1)[w]), d as u32),
        ),
    decreases n,
{
    let x = pack(window_key(trigram_windows(docs[d].leaves[l].1)[w]), d as u32);
    let prev = docs_grams(docs, n - 1);
    let now = docs_grams(docs, n);
    if d < n - 1 {
        lemma_docs_grams_hold(docs, n - 1, d, l, w);
        let k = choose|k: int| 0 <= k < prev.len() && prev[k] == x;
        assert(now[k] == x);
    } else {
        let own = leaves_grams(docs[d].leaves, d as u32, docs[d].leaves.len() as int);
        lemma_leaves_grams_hold(docs[d].leaves, d as u32, docs[d].leaves.len() as int, l, w);
        let k = choose|k: int| 0 <= k < own.len() && own[k] == x;
        assert(now[prev.len() + k] == x);
    }
}

/// The index lists a document under the key of every trigram of every
/// one of its field values: the pairs from which the posting lists are
/// written hold the key and the doc id.
pub proof fn lemma_index_lists_every_window(
    docs: Seq<InputModel>,
    p: Seq<u64>,
    d: int,
    l: int,
    w: int,
)
    requires
        sorted_unique_of(p, docs_grams(docs, docs.len() as int)),
        0 <= d < docs.len(),
        0 <= l < docs[d].leaves.len(),
        0 <= w < trigram_windows(docs[d].leaves[l].1).len(),
    ensures
        p.contains(pack(window_key(trigram_windows(docs[d].leaves[l].1)[w]), d as u32)),
{
    lemma_docs_grams_hold(docs, docs.len() as int, d, l, w);
}

/// No document that holds a required trigram is missing from the index:
/// where a trigram stands in a field value of a document, the pairs from
/// which the posting lists are written hold its key with the doc id.
pub proof fn lemma_gram_in_text_is_listed(
    docs: Seq<InputModel>,
    p: Seq<u64>,
    d: int,
    l: int,
    gram: Seq<char>,
    at: int,
)
    requires
        sorted_unique_of(p, docs_grams(docs, docs.len() as int)),
        0 <= d < docs.len(),
        0 <= l < docs[d].leaves.len(),
        gram.len() == 3,
        0 <= at,
        at + 3 <= docs[d].leaves[l].1.len(),
        docs[d].leaves[l].1.subrange(at, at + 3) == gram,
    ensures
        p.contains(pack(window_key(gram), d as u32)),
{
    let v = docs[d].leaves[l].1;
    assert(trigram_windows(v)[at] == gram);
    lemma_index_lists_every_window(docs, p, d, l, at);
}

/// The field names of the documents, sorted.
pub(crate) fn collect_names(docs: &Vec<InputDoc>) -> (names: StrMap<()>)
    ensures
        names_of(names.pairs(), input_models(docs@)),
{
    let mut names: StrMap<()> = StrMap::new();
    let ghost ms = input_models(docs@);
    let mut d: usize = 0;
    while d < docs.len()
        invariant
            d <= docs.len(),
            ms == input_models(docs@),
            keys_sorted(names.pairs()),
            forall|name: Seq<char>| has_key(names.pairs(), name) <==> occurs_upto(ms, d as int, 0, name),
        decreases docs.len() - d,
    {
        let leaves = &docs[d].leaves;
        let mut l: usize = 0;
        proof {
            assert(ms[d as int].leaves == crate::json::leaves_view(leaves@));
        }
        while l < leaves.len()
            invariant
                l <= leaves.len(),
                d < docs.len(),
                ms == input_models(docs@),
                ms[d as int].leaves == crate::json::leaves_view(leaves@),
                keys_sorted(names.pairs()),
                forall|name: Seq<char>|
                    has_key(names.pairs(), name) <==> occurs_upto(ms, d as int, l as int, name),
            decreases leaves.len() - l,
        {
            let ghost before = names.pairs();
            let ghost k = leaves@[l as int].0@;
            names.insert(leaves[l].0.clone(), ());
            proof {
                assert(ms[d as int].leaves[l as int].0 == k);
                assert forall|name: Seq<char>| has_key(names.pairs(), name) <==> occurs_upto(
                    ms,
                    d as int,
                    l + 1,
                    name,
                ) by {
                    lemma_upserted_lookup(before, k, (), name);
                    lemma_key_iff_lookup(before, name);
                    lemma_key_iff_lookup(names.pairs(), name);
                    if occurs_upto(ms, d as int, l + 1, name) {
                        let (x, y) = choose|x: int, y: int|
                            0 <= x < ms.len() && 0 <= y < ms[x].leaves.len() && (x < d || (x == d
                                && y < l + 1)) && #[trigger] ms[x].leaves[y].0 == name;
                        if x == d && y == l {
                        } else {
                            assert(occurs_upto(ms, d as int, l as int, name));
                        }
                    }
                    if occurs_upto(ms, d as int, l as int, name) {
                        let (x, y) = choose|x: int, y: int|
                            0 <= x < ms.len() && 0 <= y < ms[x].leaves.len() && (x < d || (x == d
                                && y < l)) && #[trigger] ms[x].leaves[y].0 == name;
                        assert(ms[x].leaves[y].0 == name);
                    }
                }
            }
            l += 1;
        }
        proof {
            assert forall|name: Seq<char>| occurs_upto(ms, d as int, l as int, name)
                <==> occurs_upto(ms, d + 1, 0, name) by {
                if occurs_upto(ms, d as int, l as int, name) {
                    let (x, y) = choose|x: int, y: int|
                        0 <= x < ms.len() && 0 <= y < ms[x].leaves.len() && (x < d || (x == d && y
                            < l)) && #[trigger] ms[x].leaves[y].0 == name;
                    assert(ms[x].leaves[y].0 == name);
                }
                if occurs_upto(ms, d + 1, 0, name) {
                    let (x, y) = choose|x: int, y: int|
                        0 <= x < ms.len() && 0 <= y < ms[x].leaves.len() && (x < d + 1 || (x == d
                            + 1 && y < 0)) && #[trigger] ms[x].leaves[y].0 == name;
                    assert(ms[x].leaves[y].0 == name);
                }
            }
        }
        d += 1;
    }
    names
}

/// A key is present exactly when looking it up gives a value.
pub proof fn lemma_key_iff_lookup<V>(pairs: Seq<(Seq<char>, V)>, k: Seq<char>)
    ensures
        has_key(pairs, k) <==> lookup(pairs, k) is Some,
{
}

/// The set that field `f` has after the first `d` documents and the first
/// `l` leaves of document `d`.
pub open spec fn mask_upto(docs: Seq<InputModel>, d: int, l: int, name: Seq<char>) -> Set<u32> {
    Set::new(
        |x: u32|
            x < docs.len() && ((x < d && has_leaf(docs[x as int], name)) || (x == d
                && has_leaf_before(docs[x as int], l, name))),
    )
}

/// The mask of every field: the documents that have a leaf with its name.
pub(crate) fn build_masks(docs: &Vec<InputDoc>, names: &StrMap<()>) -> (masks: Vec<Bitmap>)
    requires
        names_of(names.pairs(), input_models(docs@)),
        docs.len() <= u32::MAX,
    ensures
        sets_of(masks@) == masks_of(input_models(docs@), names.pairs()),
{
    let ghost ms = input_models(docs@);
    let ghost ids = names.pairs();
    let n: usize = names.len();
    let mut masks: Vec<Bitmap> = Vec::new();
    let mut f: usize = 0;
    while f < n
        invariant
            f <= n,
            masks.len() == f,
            forall|k: int| 0 <= k < f ==> bitmap_members(#[trigger] masks@[k]) == Set::<u32>::empty(),
        decreases n - f,
    {
        masks.push(bitmap_new());
        f += 1;
    }
    let mut d: usize = 0;
    proof {
        assert forall|k: int| 0 <= k < n implies bitmap_members(#[trigger] masks@[k]) == mask_upto(
            ms,
            0,
            0,
            ids[k].0,
        ) by {
            assert(mask_upto(ms, 0, 0, ids[k].0) =~= Set::<u32>::empty());
        }
    }
    while d < docs.len()
        invariant
            d <= docs.len(),
            docs.len() <= u32::MAX,
            ms == input_models(docs@),
            ids == names.pairs(),
            names_of(ids, ms),
            masks.len() == n,
            n == ids.len(),
            forall|k: int|
                0 <= k < n ==> bitmap_members(#[trigger] masks@[k]) == mask_upto(
                    ms,
                    d as int,
                    0,
                    ids[k].0,
                ),
        decreases docs.len() - d,
    {
        let leaves = &docs[d].leaves;
        let mut l: usize = 0;
        proof {
            assert(ms[d as int].leaves == crate::json::leaves_view(leaves@));
        }
        while l < leaves.len()
            invariant
                l <= leaves.len(),
                d < docs.len(),
                docs.len() <= u32::MAX,
                ms == input_models(docs@),
                ms[d as int].leaves == crate::json::leaves_view(leaves@),
                ids == names.pairs(),
                names_of(ids, ms),
                masks.len() == n,
                n == ids.len(),
                forall|k: int|
                    0 <= k < n ==> bitmap_members(#[trigger] masks@[k]) == mask_upto(
                        ms,
                        d as int,
                        l as int,
                        ids[k].0,
                    ),
            decreases leaves.len() - l,
        {
            let ghost name = leaves@[l as int].0@;
            proof {
                assert(ms[d as int].leaves[l as int].0 == name);
                assert(occurs_upto(ms, ms.len() as int, 0, name));
            }
            let ghost old_masks = masks@;
            match names.position(leaves[l].0.as_str()) {
                Some(pos) => {
                    bitmap_add(&mut masks[pos], d as u32);
                    proof {
                        assert forall|k: int| 0 <= k < n implies bitmap_members(
                            #[trigger] masks@[k],
                        ) == mask_upto(ms, d as int, l + 1, ids[k].0) by {
                            lemma_mask_step(ms, d as int, l as int, ids[k].0);
                            if k == pos {
                                assert(bitmap_members(masks@[k]) == bitmap_members(
                                    old_masks[k],
                                ).insert(d as u32));
                            } else {
                                assert(masks@[k] == old_masks[k]);
                                assert(ids[k].0 != name) by {
                                    if ids[k].0 == name {
                                        crate::strmap::lemma_lookup_at(ids, k);
                                    }
                                }
                            }
                        }
                    }
                },
                None => {},
            }
            l += 1;
        }
        proof {
            assert forall|k: int| 0 <= k < n implies bitmap_members(#[trigger] masks@[k])
                == mask_upto(ms, d + 1, 0, ids[k].0) by {
                lemma_mask_next(ms, d as int, ids[k].0);
            }
        }
        d += 1;
    }
    proof {
        assert forall|k: int| 0 <= k < n implies sets_of(masks@)[k] == masks_of(ms, ids)[k] by {
            assert(mask_upto(ms, ms.len() as int, 0, ids[k].0) =~= mask_of(ms, ids[k].0));
        }
        assert(sets_of(masks@) =~= masks_of(ms, ids));
    }
    masks
}

proof fn lemma_mask_step(docs: Seq<InputModel>, d: int, l: int, name: Seq<char>)
    requires
        0 <= d < docs.len(),
        0 <= l < docs[d].leaves.len(),
        d <= u32::MAX,
    ensures
        mask_upto(docs, d, l + 1, name) == (if docs[d].leaves[l].0 == name {
            mask_upto(docs, d, l, name).insert(d as u32)
        } else {
            mask_upto(docs, d, l, name)
        }),
{
    let a = mask_upto(docs, d, l + 1, name);
    let b = if docs[d].leaves[l].0 == name {
        mask_upto(docs, d, l, name).insert(d as u32)
    } else {
        mask_upto(docs, d, l, name)
    };
    assert forall|x: u32| a.contains(x) <==> b.contains(x) by {
        if x == d {
            if has_leaf_before(docs[d], l + 1, name) {
                let y = choose|y: int|
                    0 <= y < docs[d].leaves.len() && y < l + 1 && #[trigger] docs[d].leaves[y].0
                        == name;
                if y < l {
                    assert(has_leaf_before(docs[d], l, name));
                }
            }
            if has_leaf_before(docs[d], l, name) {
                let y = choose|y: int|
                    0 <= y < docs[d].leaves.len() && y < l && #[trigger] docs[d].leaves[y].0
                        == name;
                assert(docs[d].leaves[y].0 == name);
                assert(has_leaf_before(docs[d], l + 1, name));
            }
            if docs[d].leaves[l].0 == name {
                assert(has_leaf_before(docs[d], l + 1, name));
            }
        }
    }
    assert(a =~= b);
}

proof fn lemma_mask_next(docs: Seq<InputModel>, d: int, name: Seq<char>)
    requires
        0 <= d < docs.len(),
    ensures
        mask_upto(docs, d, docs[d].leaves.len() as int, name) == mask_upto(docs, d + 1, 0, name),
{
    let a = mask_upto(docs, d, docs[d].leaves.len() as int, name);
    let b = mask_upto(docs, d + 1, 0, name);
    assert forall|x: u32| a.contains(x) <==> b.contains(x) by {
        if x == d {
            if has_leaf_before(docs[d], docs[d].leaves.len() as int, name) {
                let y = choose|y: int|
                    0 <= y < docs[d].leaves.len() && y < docs[d].leaves.len()
                        && #[trigger] docs[d].leaves[y].0 == name;
                assert(docs[d].leaves[y].0 == name);
            }
            if has_leaf(docs[d], name) {
                let y = choose|y: int|
                    0 <= y < docs[d].leaves.len() && #[trigger] docs[d].leaves[y].0 == name;
                assert(docs[d].leaves[y].0 == name);
            }
        }
    }
    assert(a =~= b);
}

/// The key and doc id pairs of the documents, in the order of the
/// documents, their leaves and the windows of each leaf.
pub(crate) fn collect_pairs(docs: &Vec<InputDoc>) -> (pairs: Vec<u64>)
    requires
        docs.len() <= u32::MAX,
    ensures
        pairs@ == docs_grams(input_models(docs@), docs.len() as int),
{
    let ghost ms = input_models(docs@);
    let mut pairs: Vec<u64> = Vec::new();
    let mut d: usize = 0;
    while d < docs.len()
        invariant
            d <= docs.len(),
            docs.len() <= u32::MAX,
            ms == input_models(docs@),
            pairs@ == docs_grams(ms, d as int),
        decreases docs.len() - d,
    {
        let leaves = &docs[d].leaves;
        let ghost lv = ms[d as int].leaves;
        let ghost base = pairs@;
        let mut l: usize = 0;
        proof {
            assert(lv == crate::json::leaves_view(leaves@));
            assert(base + leaves_grams(lv, d as u32, 0) =~= base);
        }
        while l < leaves.len()
            invariant
                l <= leaves.len(),
                d < docs.len(),
                docs.len() <= u32::MAX,
                lv == crate::json::leaves_view(leaves@),
                pairs@ == base + leaves_grams(lv, d as u32, l as int),
            decreases leaves.len() - l,
        {
            let grams = trigrams(leaves[l].1.as_str());
            let ghost t = leaves@[l as int].1@;
            let ghost start = pairs@;
            let mut g: usize = 0;
            proof {
                assert(lv[l as int].1 == t);
                assert(start + text_grams(t, d as u32).take(0) =~= start);
            }
            while g < grams.len()
                invariant
                    g <= grams.len(),
                    strings_view(grams@) == trigram_windows(t),
                    pairs@ == start + text_grams(t, d as u32).take(g as int),
                decreases grams.len() - g,
            {
                proof {
                    let w = trigram_windows(t)[g as int];
                    assert(strings_view(grams@)[g as int] == grams@[g as int]@);
                    assert(w.len() == 3);
                    lemma_window_key(w);
                }
                match key_of_gram(grams[g].as_str()) {
                    Some(k) => {
                        pairs.push(pack_pair(k, d as u32));
                    },
                    None => {},
                }
                proof {
                    assert(text_grams(t, d as u32).take(g + 1) =~= text_grams(t, d as u32).take(
                        g as int,
                    ).push(text_grams(t, d as u32)[g as int]));
                }
                g += 1;
            }
            proof {
                assert(text_grams(t, d as u32).take(grams.len() as int) =~= text_grams(
                    t,
                    d as u32,
                ));
                assert(pairs@ =~= base + leaves_grams(lv, d as u32, l + 1));
            }
            l += 1;
        }
        d += 1;
    }
    pairs
}

/// The documents as `docs.dat` stores them.
pub(crate) fn store_docs(docs: &Vec<InputDoc>) -> (stored: Vec<StoredDoc>)
    requires
        docs.len() <= u32::MAX,
    ensures
        models_of(stored@) == stored_models(input_models(docs@)),
        stored.len() == docs.len(),
        forall|i: int| 0 <= i < stored.len() ==> (#[trigger] stored@[i]).doc_id == i,
{
    let ghost ms = input_models(docs@);
    let mut stored: Vec<StoredDoc> = Vec::new();
    let mut d: usize = 0;
    proof {
        assert(models_of(stored@) =~= stored_models(ms).take(0));
    }
    while d < docs.len()
        invariant
            d <= docs.len(),
            docs.len() <= u32::MAX,
            ms == input_models(docs@),
            stored.len() == d,
            models_of(stored@) == stored_models(ms).take(d as int),
            forall|i: int| 0 <= i < stored.len() ==> (#[trigger] stored@[i]).doc_id == i,
        decreases docs.len() - d,
    {
        let doc = StoredDoc::from_pairs(d as u32, docs[d].ext_id.clone(), &docs[d].leaves);
        let ghost before = stored@;
        stored.push(doc);
        proof {
            let want = stored_models(ms);
            assert(want[d as int] == DocModel {
                ext_id: ms[d as int].ext_id,
                texts: folded(ms[d as int].leaves),
            });
            assert(models_of(stored@) =~= models_of(before).push(want[d as int]));
            assert(want.take(d + 1) =~= want.take(d as int).push(want[d as int]));
        }
        d += 1;
    }
    proof {
        assert(stored_models(ms).take(docs.len() as int) =~= stored_models(ms));
    }
    stored
}

/// The names of the sorted fields, by field id.
pub(crate) fn names_vec(names: &StrMap<()>) -> (v: Vec<String>)
    ensures
        names_view(v@) == names_of_ids(names.pairs()),
{
    let entries = names.entries();
    let mut v: Vec<String> = Vec::new();
    let mut i: usize = 0;
    proof {
        assert(names_view(v@) =~= names_of_ids(names.pairs()).take(0));
    }
    while i < entries.len()
        invariant
            i <= entries.len(),
            pairs_of(entries@) == names.pairs(),
            names_view(v@) == names_of_ids(names.pairs()).take(i as int),
        decreases entries.len() - i,
    {
        let ghost before = v@;
        v.push(entries[i].0.clone());
        proof {
            let want = names_of_ids(names.pairs());
            assert(pairs_of(entries@)[i as int].0 == entries@[i as int].0@);
            assert(names_view(v@) =~= names_view(before).push(want[i as int]));
            assert(want.take(i + 1) =~= want.take(i as int).push(want[i as int]));
        }
        i += 1;
    }
    proof {
        assert(names_of_ids(names.pairs()).take(entries.len() as int) =~= names_of_ids(names.pairs()));
    }
    v
}

/// Whether the documents can be written as one segment, by the widths
/// that the format gives its counts and lengths:
/// - there are no more documents than a doc id of 32 bits can number;
/// - there are no more field names than a field id of 32 bits can
///   number, and their dictionary is no longer than a length of 32 bits
///   can say;
/// - no trigram key has more documents, and the index has no more keys,
///   than a count of 32 bits can say;
/// - no field mask is longer in its portable form than a length of 32
///   bits can say, whichever bitmap holds the mask.
///
/// The names `ids` and the pairs `p` are what the documents determine:
/// their field names in order, and their key and doc id pairs in order,
/// each once.
pub open spec fn writable(docs: Seq<InputModel>) -> bool {
    &&& docs.len() <= u32::MAX
    &&& forall|ids: Seq<(Seq<char>, ())>| #[trigger]
        names_of(ids, docs) ==> ids.len() <= u32::MAX && dict_bytes(names_of_ids(ids)).len()
            <= u32::MAX
    &&& forall|p: Seq<u64>| #[trigger]
        sorted_unique_of(p, docs_grams(docs, docs.len() as int)) ==> groups_fit(p, 0)
            && gram_records(p, 0, 0).len() <= u32::MAX
    &&& forall|ids: Seq<(Seq<char>, ())>, f: int, b: Bitmap|
        #![trigger masks_of(docs, ids)[f], bitmap_portable(b)]
        names_of(ids, docs) && 0 <= f < ids.len() && bitmap_members(b) == masks_of(docs, ids)[f]
            ==> bitmap_portable(b).len() <= u32::MAX
}

/// An input without documents can be written.
pub proof fn lemma_no_documents_are_writable()
    ensures
        writable(Seq::<InputModel>::empty()),
{
    let docs = Seq::<InputModel>::empty();
    assert forall|ids: Seq<(Seq<char>, ())>| #[trigger] names_of(ids, docs) implies ids.len()
        <= u32::MAX && dict_bytes(names_of_ids(ids)).len() <= u32::MAX by {
        if ids.len() > 0 {
            assert(has_key(ids, ids[0].0));
            assert(name_occurs(docs, ids[0].0));
        }
        assert(names_of_ids(ids) =~= Seq::<Seq<char>>::empty());
    }
    assert forall|p: Seq<u64>| #[trigger]
        sorted_unique_of(p, docs_grams(docs, docs.len() as int)) implies groups_fit(p, 0)
        && gram_records(p, 0, 0).len() <= u32::MAX by {
        if p.len() > 0 {
            assert(p.contains(p[0]));
            assert(docs_grams(docs, 0).contains(p[0]));
        }
    }
    assert forall|ids: Seq<(Seq<char>, ())>, f: int, b: Bitmap|
        #![trigger masks_of(docs, ids)[f], bitmap_portable(b)]
        names_of(ids, docs) && 0 <= f < ids.len() && bitmap_members(b) == masks_of(docs, ids)[f]
        implies bitmap_portable(b).len() <= u32::MAX by {
        assert(has_key(ids, ids[0].0));
        assert(name_occurs(docs, ids[0].0));
    }
}

/// Builds the files of a segment from its documents. `TooLarge` is
/// returned only where the documents cannot be written: see `writable`.
pub fn build_segment(docs: &Vec<InputDoc>) -> (r: Result<SegmentImage, SegmentError>)
    ensures
        match r {
            Ok(img) => image_holds(img, input_models(docs@)),
            Err(e) => e == SegmentError::TooLarge && !writable(input_models(docs@)),
        },
{
    let ghost ms = input_models(docs@);
    if docs.len() > 0xFFFF_FFFF {
        return Err(SegmentError::TooLarge);
    }
    let names = collect_names(docs);
    if names.len() > 0xFFFF_FFFF {
        proof {
            assert(names_of(names.pairs(), ms));
        }
        return Err(SegmentError::TooLarge);
    }
    let pairs = collect_pairs(docs);
    let p = sorted_unique(pairs);
    let (grams_dat, recs) = match encode_grams(&p) {
        Ok(x) => x,
        Err(_) => {
            proof {
                assert(sorted_unique_of(p@, docs_grams(ms, ms.len() as int)));
            }
            return Err(SegmentError::TooLarge);
        },
    };
    let grams_idx = match encode_grams_idx(&recs) {
        Ok(x) => x,
        Err(_) => {
            proof {
                assert(sorted_unique_of(p@, docs_grams(ms, ms.len() as int)));
            }
            return Err(SegmentError::TooLarge);
        },
    };
    let masks = build_masks(docs, &names);
    let (fields_dat, frecs) = match encode_fields_dat(&masks) {
        Ok(x) => x,
        Err(_) => {
            proof {
                let ids = names.pairs();
                assert(sets_of(masks@).len() == masks@.len());
                assert(masks_of(ms, ids).len() == ids.len());
                let f = choose|f: int|
                    0 <= f < masks@.len() && bitmap_portable(#[trigger] masks@[f]).len()
                        > u32::MAX;
                assert(sets_of(masks@)[f] == bitmap_members(masks@[f]));
                assert(names_of(ids, ms) && 0 <= f < ids.len() && bitmap_members(masks@[f])
                    == masks_of(ms, ids)[f] && bitmap_portable(masks@[f]).len() > u32::MAX);
            }
            return Err(SegmentError::TooLarge);
        },
    };
    let nv = names_vec(&names);
    let fields_idx = match encode_fields_idx(&nv, &frecs) {
        Ok(x) => x,
        Err(_) => {
            proof {
                assert(names_of(names.pairs(), ms));
                assert(names_view(nv@).len() == nv@.len());
            }
            return Err(SegmentError::TooLarge);
        },
    };
    let stored = store_docs(docs);
    let docs_dat = encode_docs_dat(&stored, &names);
    let hdr = MetaHeader {
        magic: META_MAGIC,
        version: META_VERSION,
        header_len: META_HEADER_LEN,
        doc_count: docs.len() as u64,
        gram_count: recs.len() as u64,
        grams_idx_len: grams_idx.len() as u64,
        grams_dat_len: grams_dat.len() as u64,
        fields_idx_len: fields_idx.len() as u64,
        fields_dat_len: fields_dat.len() as u64,
        docs_dat_len: docs_dat.len() as u64,
    };
    let ghost fdat = fields_dat@;
    let img = SegmentImage {
        meta: write_meta_with_crc(&hdr),
        grams_idx: seal(grams_idx),
        grams_dat: seal(grams_dat),
        fields_idx: seal(fields_idx),
        fields_dat: seal(fields_dat),
        docs_dat: seal(docs_dat),
    };
    proof {
        assert(image_holds_with(img, ms, names.pairs(), p@, frecs@, fdat));
        let sm = stored_models(ms);
        assert forall|d: int| 0 <= d < ms.len() implies encode_utf8((#[trigger] ms[d]).ext_id).len()
            <= u64::MAX && folded(ms[d].leaves).len() <= u64::MAX by {
            assert(sm[d] == models_of(stored@)[d]);
            assert(crate::segment::docs::doc_sizes_fit(models_of(stored@)[d]));
        }
        assert forall|d: int, l: int|
            0 <= d < ms.len() && 0 <= l < folded(ms[d].leaves).len() implies encode_utf8(
            (#[trigger] folded(ms[d].leaves)[l]).1,
        ).len() <= u64::MAX by {
            assert(sm[d] == models_of(stored@)[d]);
            assert(crate::segment::docs::doc_sizes_fit(models_of(stored@)[d]));
            assert(sm[d].texts[l] == folded(ms[d].leaves)[l]);
        }
        assert(crate::segment::fields::records_in_range(frecs@, names.pairs().len())) by {
            assert forall|i: int| 0 <= i < frecs@.len() implies (#[trigger] frecs@[i]).field_id
                < names.pairs().len() by {}
        }
        assert(segment_fits(ms, names.pairs(), p@, frecs@));
    }
    Ok(img)
}

/// The writer of binary segments.
#[derive(Debug, Clone, Copy)]
pub struct BinSegmentWriter;

impl Default for BinSegmentWriter {
    fn default() -> (r: Self) {
        BinSegmentWriter
    }
}

impl BinSegmentWriter {
    /// Builds a segment from a text of one JSON document per line.
    ///
    /// Blank lines are skipped. Every other line must be a JSON value with
    /// a string member `_id`; the first line that is not ends the work
    /// with `BadJson` or `MissingId`. Each document gets the next doc id
    /// from zero. Every string leaf is normalised, stored under its
    /// dotted path, and indexed by the trigrams of its text. Documents
    /// that can be written are written; `TooLarge` is returned only
    /// where a count or a length leaves the width that the format gives
    /// it: see `writable`.
    pub fn write_segment(&mut self, input_jsonl: &str) -> (r: Result<SegmentImage, SegmentError>)
        ensures
            match r {
                Ok(img) => match input_of(
                    lines_of(input_jsonl@),
                    lines_of(input_jsonl@).len() as int,
                ) {
                    Ok(docs) => image_holds(img, docs),
                    Err(_) => false,
                },
                Err(e) => match input_of(
                    lines_of(input_jsonl@),
                    lines_of(input_jsonl@).len() as int,
                ) {
                    Ok(docs) => e == SegmentError::TooLarge && !writable(docs),
                    Err(e2) => e == e2,
                },
            },
    {
        let lines = split_lines(input_jsonl);
        proof {
            assert(strings_view(lines@).len() == lines.len());
        }
        let docs = match read_input(&lines) {
            Ok(d) => d,
            Err(e) => {
                return Err(e);
            },
        };
        build_segment(&docs)
    }
}

} // verus!
